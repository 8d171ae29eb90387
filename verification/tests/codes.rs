use kagi::authcode::{
    build_code_record, capture, parse_u64, AuthCode, AuthorizeRequest, AuthzErr,
    CodeExchangeRequest, CodeReply, CodeStep, Flow, MintOrder, MintReply, MintStep, Pending,
    Profile, RequestStep, StateStep, CONSUMED, MAX_IN_FLIGHT, STATE_CLIENT,
};
use kagi::claims::claim_str;
use kagi::device_auth::{AuthError, Held};
use kagi::ledger::{StateReply, Status};

const NOW: u64 = 1_700_000_000;
const VERIFIER: &str = "dBjftJeZ4CVP-mB92K27uhbUJU1p1r_wW1gFWFOEjXk";
const CHALLENGE: &str = "E9Melhoa2OwvFrEMTJguCHaoeK1t8URWbuGJSstw-cM";
const THUMB: &[u8; 43] = b"thumbthumbthumbthumbthumbthumbthumbthumb123";
const CLIENT: &str = r#"{"redirect_uri":"https://app.example/cb","scope":"read"}"#;

fn flow() -> AuthCode {
    AuthCode::module_new(b"https://id.example", b"api", 300, 600, 1, true).unwrap()
}

fn authorize() -> AuthorizeRequest {
    AuthorizeRequest {
        corr: 41,
        method: b"POST".to_vec(),
        uri: b"/authorize".to_vec(),
        credential: b"cred".to_vec(),
        proof: b"proof".to_vec(),
        client_id: b"client".to_vec(),
        redirect_uri: b"https://app.example/cb".to_vec(),
        nonce: b"n1".to_vec(),
        state: b"st".to_vec(),
        code_challenge: CHALLENGE.as_bytes().to_vec(),
    }
}

fn exchange(code: &[u8], verifier: &str) -> CodeExchangeRequest {
    CodeExchangeRequest {
        corr: 42,
        code: code.to_vec(),
        code_verifier: verifier.as_bytes().to_vec(),
        client_id: b"client".to_vec(),
        redirect_uri: b"https://app.example/cb".to_vec(),
    }
}

fn held(claims: &str) -> Result<Held, AuthError> {
    Ok(Held {
        claims: claims.as_bytes().to_vec(),
        thumbprint: THUMB.to_vec(),
        proof_id: [5; 32],
    })
}

const CLAIMS: &str = r#"{"sub":"tenant_1","device_id":"dev_1"}"#;

fn reply(correlation: u32, status: Status, value: &[u8]) -> StateReply {
    StateReply {
        client: STATE_CLIENT,
        correlation,
        status,
        value: value.to_vec(),
        etag: b"e1".to_vec(),
    }
}

fn hold(f: &mut AuthCode, step: RequestStep) -> u32 {
    match step {
        RequestStep::Lookup(l) => {
            let corr = l.entry.state_corr;
            assert!(f.sent(l.index, l.entry, true).is_none());
            corr
        }
        RequestStep::Refuse(_) => panic!("a lookup"),
    }
}

fn why(step: RequestStep) -> AuthzErr {
    match step {
        RequestStep::Refuse(r) => r.status,
        RequestStep::Lookup(_) => panic!("a refusal"),
    }
}

fn not_exchanged(step: StateStep) -> AuthzErr {
    match step {
        StateStep::RefuseXchg(r) => {
            assert_eq!(r.corr, 42);
            r.status
        }
        _ => panic!("a refusal"),
    }
}

/// A code, and the record that it stands for.
fn coded(f: &mut AuthCode) -> (CodeReply, Vec<u8>) {
    let step = f.handle_authorize(&authorize(), NOW, held(CLAIMS));
    let corr = hold(f, step);
    let (entry, redirect_uri) =
        match f.drain_state(&reply(corr, Status::Success, CLIENT.as_bytes())) {
            StateStep::Draw { entry, redirect_uri } => (entry, redirect_uri),
            _ => panic!("a draw"),
        };
    match f.draw_code(entry, redirect_uri, Some([3; 16])) {
        CodeStep::Put { record, expiry, reply, .. } => {
            assert_eq!(expiry, NOW + 60);
            let reply = f.code_put(reply, true).ok().unwrap();
            f.authz_answered();
            (reply, record)
        }
        CodeStep::Refuse(_) => panic!("a code"),
    }
}

fn to_device(f: &mut AuthCode, code: &[u8], record: &[u8]) -> u32 {
    let step = f.handle_exchange(&exchange(code, VERIFIER), false);
    let corr = hold(f, step);
    match f.drain_state(&reply(corr, Status::Success, record)) {
        StateStep::ReadDevice { index, entry } => {
            assert_eq!((entry.flow, &entry.device_id[..]), (Flow::XchgDevice, &b"dev_1"[..]));
            assert_eq!((&entry.jkt[..], &entry.code_etag[..]), (&THUMB[..], &b"e1"[..]));
            let corr = entry.state_corr;
            assert!(f.sent(index, entry, true).is_none());
            corr
        }
        _ => panic!("a device read"),
    }
}

fn to_consume(f: &mut AuthCode, code: &[u8], record: &[u8]) -> u32 {
    let corr = to_device(f, code, record);
    match f.drain_state(&reply(corr, Status::Success, b"{}")) {
        StateStep::Consume { index, entry, expiry } => {
            assert_eq!((expiry, entry.flow), (NOW + 60, Flow::XchgConsume));
            let corr = entry.state_corr;
            assert!(f.sent(index, entry, true).is_none());
            corr
        }
        _ => panic!("a consumption"),
    }
}

fn to_mint(f: &mut AuthCode, code: &[u8], record: &[u8]) -> MintOrder {
    let corr = to_consume(f, code, record);
    match f.drain_state(&reply(corr, Status::Success, b"")) {
        StateStep::Mint { index, entry, order } => {
            assert!(f.sent(index, entry, true).is_none());
            order
        }
        _ => panic!("an order"),
    }
}

fn minted(correlation: u32, ok: bool, body: &[u8]) -> MintReply {
    MintReply { correlation, ok, inline: true, body: body.to_vec() }
}

#[test]
fn a_code_is_exchanged_for_both_tokens() {
    let mut f = flow();
    let (code, record) = coded(&mut f);
    assert_eq!((code.corr, &code.state[..]), (41, &b"st"[..]));
    assert_eq!(code.code, b"AwMDAwMDAwMDAwMDAwMDAw");
    assert_eq!(code.redirect_uri, b"https://app.example/cb");
    assert_eq!(claim_str(&record, b"cid"), Some(&b"client"[..]));
    assert_eq!(claim_str(&record, b"cc"), Some(CHALLENGE.as_bytes()));
    assert_eq!(claim_str(&record, b"at"), Some(&b"1700000000"[..]));
    let at = to_mint(&mut f, &code.code, &record);
    assert_eq!(at.profile, Profile::AccessToken);
    assert_eq!((&at.sub[..], &at.aud[..], &at.scope[..]), (&b"tenant_1"[..], &b"api"[..], &b"read"[..]));
    assert_eq!((at.jkt, at.ttl_seconds), (Some(THUMB.to_vec()), 300));
    let id = match f.drain_mint(minted(at.correlation, true, b"access")) {
        MintStep::Mint { index, entry, order } => {
            assert!(f.sent(index, entry, true).is_none());
            order
        }
        _ => panic!("an order"),
    };
    assert_eq!((id.profile, id.ttl_seconds), (Profile::IdToken, 600));
    assert_eq!((&id.aud[..], &id.scope[..]), (&b"client"[..], &b""[..]));
    assert_eq!((id.jkt, id.nonce, id.auth_time), (None, Some(b"n1".to_vec()), Some(NOW)));
    match f.drain_mint(minted(id.correlation, true, b"identity")) {
        MintStep::Tokens { corr, access_token, id_token } => {
            assert_eq!(corr, 42);
            assert_eq!((&access_token[..], &id_token[..]), (&b"access"[..], &b"identity"[..]));
        }
        _ => panic!("the tokens"),
    }
    f.xchg_answered();
    assert_eq!((f.authz_ok, f.xchg_ok, f.authz_refused, f.xchg_refused), (1, 1, 0, 0));
    assert!(matches!(f.drain_mint(minted(id.correlation, true, b"x")), MintStep::Ignore));
}

#[test]
fn requests_for_a_code_that_are_refused() {
    let mut f = flow();
    assert_eq!(f.precheck(&authorize(), false, Some(NOW)), Ok(NOW));
    let mut early = |req: AuthorizeRequest, empty: bool, now: Option<u64>| {
        f.precheck(&req, empty, now).unwrap_err().status
    };
    assert_eq!(early(authorize(), true, Some(NOW)), AuthzErr::NoKey);
    let bare = AuthorizeRequest { credential: Vec::new(), ..authorize() };
    assert_eq!(early(bare, false, Some(NOW)), AuthzErr::Unauthenticated);
    let short = AuthorizeRequest { code_challenge: b"short".to_vec(), ..authorize() };
    assert_eq!(early(short, false, Some(NOW)), AuthzErr::NoPkce);
    let quoted = AuthorizeRequest { client_id: b"a\"b".to_vec(), ..authorize() };
    assert_eq!(early(quoted, false, Some(NOW)), AuthzErr::Malformed);
    assert_eq!(early(authorize(), false, None), AuthzErr::NoClock);
    let mut late = |auth: Result<Held, AuthError>| why(f.handle_authorize(&authorize(), NOW, auth));
    assert_eq!(late(Err(AuthError::Replay)), AuthzErr::Replay);
    assert_eq!(late(Err(AuthError::Proof)), AuthzErr::Unauthenticated);
    assert_eq!(late(held(r#"{"sub":"tenant_1"}"#)), AuthzErr::Unauthenticated);
    for _ in 0..MAX_IN_FLIGHT {
        let step = f.handle_authorize(&authorize(), NOW, held(CLAIMS));
        hold(&mut f, step);
    }
    assert_eq!(
        why(f.handle_authorize(&authorize(), NOW, held(CLAIMS))),
        AuthzErr::StateUnavailable
    );
    assert_eq!(f.authz_refused, 9);
    assert!(AuthCode::module_new(b"", b"", 1, 1, 1, false).is_none());
}

#[test]
fn a_client_has_to_be_registered_at_that_address() {
    let mut f = flow();
    let mut asked = |status: Status, value: &str| {
        let step = f.handle_authorize(&authorize(), NOW, held(CLAIMS));
        let corr = hold(&mut f, step);
        match f.drain_state(&reply(corr, status, value.as_bytes())) {
            StateStep::RefuseAuthz(r) => r.status,
            _ => panic!("a refusal"),
        }
    };
    assert_eq!(asked(Status::NotFound, ""), AuthzErr::UnknownClient);
    assert_eq!(asked(Status::Success, "{}"), AuthzErr::BadRedirect);
    let other = r#"{"redirect_uri":"https://app.example/cb2"}"#;
    assert_eq!(asked(Status::Success, other), AuthzErr::BadRedirect);
}

#[test]
fn codes_that_cannot_be_drawn_or_kept() {
    let mut f = flow();
    let entry = || Pending { caller_corr: 41, ..Pending::zero() };
    assert!(matches!(f.draw_code(entry(), Vec::new(), None), CodeStep::Refuse(_)));
    assert!(matches!(f.draw_code(entry(), Vec::new(), Some([3; 16])), CodeStep::Refuse(_)));
    let lost = CodeReply {
        corr: 41,
        code: Vec::new(),
        redirect_uri: Vec::new(),
        state: Vec::new(),
    };
    assert_eq!(f.code_put(lost, false).err().unwrap().status, AuthzErr::StateUnavailable);
    assert_eq!(f.authz_refused, 3);
}

#[test]
fn a_code_is_bound_to_who_asked_for_it() {
    let mut f = flow();
    let (code, record) = coded(&mut f);
    assert_eq!(why(f.handle_exchange(&exchange(&code.code, VERIFIER), true)), AuthzErr::NoKey);
    assert_eq!(why(f.handle_exchange(&exchange(b"", VERIFIER), false)), AuthzErr::Malformed);
    assert_eq!(why(f.handle_exchange(&exchange(&code.code, ""), false)), AuthzErr::Malformed);
    let mut answer = |req: CodeExchangeRequest, status: Status, value: &[u8]| {
        let step = f.handle_exchange(&req, false);
        let corr = hold(&mut f, step);
        not_exchanged(f.drain_state(&reply(corr, status, value)))
    };
    let own = || exchange(&code.code, VERIFIER);
    assert_eq!(answer(own(), Status::NotFound, b""), AuthzErr::InvalidGrant);
    assert_eq!(answer(own(), Status::Success, CONSUMED.as_bytes()), AuthzErr::InvalidGrant);
    let stranger = CodeExchangeRequest { client_id: b"other".to_vec(), ..own() };
    assert_eq!(answer(stranger, Status::Success, &record), AuthzErr::Mismatch);
    let elsewhere = CodeExchangeRequest { redirect_uri: b"https://x".to_vec(), ..own() };
    assert_eq!(answer(elsewhere, Status::Success, &record), AuthzErr::Mismatch);
    let guess = exchange(&code.code, "another-verifier-of-no-consequence");
    assert_eq!(answer(guess, Status::Success, &record), AuthzErr::PkceFailed);
}

#[test]
fn a_code_is_spent_before_it_is_worth_anything() {
    let mut f = flow();
    let (code, record) = coded(&mut f);
    let corr = to_device(&mut f, &code.code, &record);
    let missing = f.drain_state(&reply(corr, Status::NotFound, b""));
    assert_eq!(not_exchanged(missing), AuthzErr::InvalidGrant);
    let corr = to_device(&mut f, &code.code, &record);
    let lost = f.drain_state(&reply(corr, Status::Unavailable, b""));
    assert_eq!(not_exchanged(lost), AuthzErr::StateUnavailable);
    let corr = to_device(&mut f, &code.code, &record);
    let revoked = f.drain_state(&reply(corr, Status::Success, br#"{"status":"revoked"}"#));
    assert_eq!(not_exchanged(revoked), AuthzErr::InvalidGrant);
    let corr = to_consume(&mut f, &code.code, &record);
    let raced = f.drain_state(&reply(corr, Status::Conflict, b""));
    assert_eq!(not_exchanged(raced), AuthzErr::InvalidGrant);
    let order = to_mint(&mut f, &code.code, &record);
    match f.drain_mint(minted(order.correlation, false, b"")) {
        MintStep::Refuse(r) => assert_eq!(r.status, AuthzErr::MintFailed),
        _ => panic!("a refusal"),
    }
    let order = to_mint(&mut f, &code.code, &record);
    match f.drain_mint(minted(order.correlation, true, &[b'a'; 4097])) {
        MintStep::Refuse(r) => assert_eq!(r.status, AuthzErr::MintFailed),
        _ => panic!("a refusal"),
    }
    assert_eq!(f.xchg_refused, 6);
}

#[test]
fn asks_that_cannot_be_sent() {
    let mut f = flow();
    let status = |f: &mut AuthCode, flow: Flow| {
        let entry = Pending { live: true, flow, caller_corr: 5, ..Pending::zero() };
        let r = f.sent(0, entry, false).unwrap();
        assert_eq!(r.corr, 5);
        r.status
    };
    assert_eq!(status(&mut f, Flow::AuthzClient), AuthzErr::StateUnavailable);
    assert_eq!(status(&mut f, Flow::XchgDevice), AuthzErr::StateUnavailable);
    assert_eq!(status(&mut f, Flow::XchgMintAt), AuthzErr::MintFailed);
    assert_eq!(status(&mut f, Flow::XchgMintId), AuthzErr::MintFailed);
    assert_eq!((f.authz_refused, f.xchg_refused), (1, 3));
    let stray = StateReply { client: 1, ..reply(1, Status::Success, b"") };
    assert!(matches!(f.drain_state(&stray), StateStep::Ignore));
    assert!(matches!(f.drain_state(&reply(99, Status::Success, b"")), StateStep::Ignore));
}

#[test]
fn records_of_codes() {
    assert_eq!(parse_u64(b"1a7"), 17);
    assert_eq!(parse_u64(b"18446744073709551615"), u64::MAX);
    assert_eq!(parse_u64(b"18446744073709551616"), 0);
    assert_eq!((capture(Some(b"abc"), 2), capture(None, 2)), (b"ab".to_vec(), Vec::new()));
    let entry = Pending { jkt: THUMB.to_vec(), auth_time: 9, ..Pending::zero() };
    let record = build_code_record(&entry, b"cc", 1024).unwrap();
    assert!(record.starts_with(br#"{"sub":"","did":"","jkt":"thumb"#));
    assert!(record.ends_with(br#""cc":"cc","nonce":"","scope":"","at":"9"}"#));
    assert!(build_code_record(&entry, b"cc", record.len() - 1).is_none());
    assert!(build_code_record(&entry, b"c\\c", 1024).is_none());
    assert!(build_code_record(&Pending::zero(), b"cc", 1024).is_none());
}
