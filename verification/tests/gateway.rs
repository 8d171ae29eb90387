use kagi::assurance::{AssuranceLevel, Evidence, KeyBinding};
use kagi::base64::encode;
use kagi::device_auth::{AuthError, Held};
use kagi::http::{respond, Reply};
use kagi::keys::Suite;
use kagi::ledger::{StateReply, Status};
use kagi::resource_gate::{
    copy_into, evidence_from, header_value, method_name, strip_dpop_scheme, Gate, GateStep, Refusal, MAX_PENDING_CLAIMS, STATE_CLIENT,
};
use kagi::token_endpoint::{
    form_mentions, form_u32, form_value, hex_nibble, percent_decode, write_token_json, write_u32,
    AdmitStatus, Endpoint, MintReply, Pending, RequestStep, Stage, Verdict, VerdictStep, MAX_IN_FLIGHT,
};

const NOW: u64 = 1_700_000_000;

fn request(method: u8, path: &str, headers: &str, body: &str) -> Vec<u8> {
    let mut r = vec![9, 0, 2, 0, method, 0];
    r.extend_from_slice(&(path.len() as u16).to_le_bytes());
    r.extend_from_slice(&(headers.len() as u16).to_le_bytes());
    r.extend_from_slice(&(body.len() as u16).to_le_bytes());
    r.extend_from_slice(path.as_bytes());
    r.extend_from_slice(headers.as_bytes());
    r.extend_from_slice(body.as_bytes());
    r
}

const HEADERS: &str = "authorization: DPoP cred\r\ndpop: proof\r\n";

fn answer(reply: &Reply) -> (u16, &[u8]) {
    assert_eq!((reply.conn, reply.stream), (9, 2));
    (reply.status, &reply.body)
}

// The token endpoint.

fn endpoint() -> Endpoint {
    Endpoint::module_new(true, b"https://id.example", Suite::Es256)
}

fn answered(step: RequestStep) -> (u16, Vec<u8>) {
    match step {
        RequestStep::Reply(reply) => {
            let (status, body) = answer(&reply);
            (status, body.to_vec())
        }
        _ => panic!("a reply"),
    }
}

fn in_flight(e: &mut Endpoint, body: &str) -> u32 {
    match e.handle_request(&request(3, "/token", HEADERS, body)) {
        RequestStep::Ask { entry, ask } => {
            assert_eq!((&ask.credential[..], &ask.proof[..]), (&b"cred"[..], &b"proof"[..]));
            assert_eq!(ask.uri, b"/token");
            let corr = entry.corr;
            let index = e.reserve(&entry, true).ok().unwrap();
            assert!(e.sent(index, entry, true).is_none());
            corr
        }
        _ => panic!("a question"),
    }
}

fn verdict(corr: u32, status: AdmitStatus) -> Verdict {
    Verdict {
        corr,
        status,
        sub: b"tenant_1".to_vec(),
        device_id: b"dev_1".to_vec(),
        jkt: b"thumb".to_vec(),
        evidence: Evidence::at(NOW),
    }
}

fn to_mint(e: &mut Endpoint, body: &str) -> u32 {
    let corr = in_flight(e, body);
    let entry = match e.drain_admit(&verdict(corr, AdmitStatus::Admitted)) {
        VerdictStep::Mint(entry) => entry,
        _ => panic!("an order"),
    };
    let (entry, order) = e.dispatch_mint(entry, true).ok().unwrap();
    assert_eq!((&order.sub[..], &order.jkt[..]), (&b"tenant_1"[..], &b"thumb"[..]));
    assert_eq!((order.suite, entry.stage), (Suite::Es256, Stage::Mint));
    let index = e.reserve(&entry, true).ok().unwrap();
    assert!(e.sent(index, entry, true).is_none());
    order.correlation
}

fn minted(correlation: u32, ok: bool, body: &[u8]) -> Option<MintReply> {
    Some(MintReply { correlation, ok, inline: true, body: body.to_vec() })
}

#[test]
fn form_fields() {
    let body = b"aud=a%2Fb&scope=x+y&bad=%4&bad2=%zz&n=0300&m=4294967296&empty=";
    assert_eq!(form_value(body, b"aud", 256), b"a/b");
    assert_eq!(form_value(body, b"scope", 256), b"x y");
    assert_eq!(form_value(body, b"scope", 2), b"");
    assert_eq!(form_value(body, b"bad", 256), b"");
    assert_eq!(form_value(body, b"bad2", 256), b"");
    assert_eq!(form_value(body, b"absent", 256), b"");
    assert_eq!(form_u32(body, b"n"), Some(300));
    assert_eq!(form_u32(body, b"m"), None);
    assert_eq!(form_u32(body, b"empty"), None);
    assert_eq!(form_u32(body, b"aud"), None);
    assert_eq!((hex_nibble(b'f'), hex_nibble(b'A'), hex_nibble(b'g')), (Some(15), Some(10), None));
    assert_eq!(percent_decode(b"%41+", 2), b"A ");
    assert_eq!(write_u32(4294967295), b"4294967295");
    assert_eq!(
        write_token_json(4224, b"tok", 300),
        br#"{"access_token":"tok","token_type":"DPoP","expires_in":300}"#
    );
    assert_eq!(write_token_json(5, b"tok", 300), br#"{"acc"#);
    assert!(form_mentions(body, b"bad"));
    assert!(form_mentions(body, b"m"));
    assert!(!form_mentions(body, b"empty"));
    assert!(!form_mentions(body, b"au"));
}

#[test]
fn two_connections_are_told_apart() {
    let mut e = endpoint();
    let mut ask = |conn: u8| {
        let mut r = request(3, "/token", HEADERS, "");
        r[0] = conn;
        match e.handle_request(&r) {
            RequestStep::Ask { entry, .. } => {
                let corr = entry.corr;
                let index = e.reserve(&entry, true).ok().unwrap();
                assert!(e.sent(index, entry, true).is_none());
                corr
            }
            _ => panic!("a question"),
        }
    };
    let (_, second) = (ask(4), ask(5));
    match e.drain_admit(&verdict(second, AdmitStatus::Revoked)) {
        VerdictStep::Reply(reply) => assert_eq!(reply.conn, 5),
        _ => panic!("a reply"),
    }
}

#[test]
fn a_token_goes_to_the_connection_that_asked() {
    let mut e = endpoint();
    let corr = to_mint(&mut e, "aud=api&scope=read&expires_in=60");
    let reply = e.drain_mint_replies(minted(corr, true, b"tok")).unwrap();
    let (status, body) = answer(&reply);
    assert_eq!(status, 200);
    assert_eq!(body, br#"{"access_token":"tok","token_type":"DPoP","expires_in":60}"#);
    assert!(e.drain_mint_replies(minted(corr, true, b"tok")).is_none());
    assert_eq!((e.token_issued, e.token_unmatched_reply), (1, 1));
    let frame = respond(&reply, 4096).unwrap();
    assert!(frame.ends_with(body));
    assert!(respond(&reply, 8).is_none());
}

#[test]
fn requests_that_the_endpoint_answers() {
    let mut e = endpoint();
    assert!(matches!(e.handle_request(&[0; 11]), RequestStep::Ignore));
    let whole = request(3, "/token", HEADERS, "aud=api");
    let cut = answered(e.handle_request(&whole[..whole.len() - 1]));
    assert_eq!(cut, (400, br#"{"error":"invalid_request"}"#.to_vec()));
    let get = answered(e.handle_request(&request(1, "/token", HEADERS, "")));
    assert_eq!(get.0, 405);
    let long = format!("sub={}", "a".repeat(300));
    for body in ["sub=someone", "jkt=thumb", "aud=api&sub=%zz", "sub=&sub=x", &long] {
        let own = answered(e.handle_request(&request(3, "/token", HEADERS, body)));
        assert_eq!(own.0, 400);
        assert!(own.1.ends_with(br#""authority_not_caller_selected"}"#));
    }
    let bearer = "authorization: Bearer cred\r\ndpop: proof\r\n";
    assert_eq!(answered(e.handle_request(&request(3, "/token", bearer, ""))).0, 401);
    let unproved = "authorization: DPoP cred\r\n";
    assert_eq!(answered(e.handle_request(&request(3, "/token", unproved, ""))).0, 401);
    assert_eq!(
        (e.token_malformed, e.token_caller_authority, e.token_unauthenticated),
        (1, 5, 2)
    );
    let mut alone = Endpoint::module_new(false, b"", Suite::Es256);
    assert_eq!(answered(alone.handle_request(&whole)).0, 503);
}

#[test]
fn what_admission_refuses() {
    let mut e = endpoint();
    for (status, code) in [
        (AdmitStatus::Unauthenticated, 401),
        (AdmitStatus::StaleProof, 401),
        (AdmitStatus::Replay, 401),
        (AdmitStatus::UnknownDevice, 401),
        (AdmitStatus::Revoked, 401),
        (AdmitStatus::NotPermitted, 403),
        (AdmitStatus::Undecided, 503),
    ] {
        let corr = in_flight(&mut e, "aud=api");
        match e.drain_admit(&verdict(corr, status)) {
            VerdictStep::Reply(reply) => assert_eq!(answer(&reply).0, code),
            _ => panic!("a reply"),
        }
    }
    assert_eq!(
        (e.token_unauthenticated, e.token_unknown_device, e.token_revoked, e.token_refused),
        (3, 1, 1, 2)
    );
    assert!(matches!(e.drain_admit(&verdict(99, AdmitStatus::Admitted)), VerdictStep::Ignore));
}

#[test]
fn a_mint_that_gives_no_token() {
    let mut e = endpoint();
    let corr = to_mint(&mut e, "");
    let reply = e.drain_mint_replies(minted(corr, false, b"")).unwrap();
    assert_eq!(answer(&reply).0, 400);
    let corr = to_mint(&mut e, "");
    let reply = e.drain_mint_replies(minted(corr, true, &[b'a'; 4097])).unwrap();
    assert_eq!(answer(&reply).0, 400);
    assert!(e.drain_mint_replies(None).is_none());
    assert_eq!((e.token_refused, e.token_malformed), (2, 1));
    let corr = to_mint(&mut e, "expires_in=7");
    assert_eq!(e.take_pending(corr), Some((9, 2, 7)));
    assert_eq!(e.take_pending(corr), None);
}

#[test]
fn a_table_that_is_full() {
    let mut e = endpoint();
    for _ in 0..MAX_IN_FLIGHT {
        in_flight(&mut e, "");
    }
    let entry = Pending { conn: 9, stream: 2, ..Pending::zero() };
    assert_eq!(answer(&e.reserve(&entry, true).err().unwrap()).0, 503);
    assert_eq!(answer(&e.reserve(&entry, false).err().unwrap()).0, 503);
    assert_eq!(e.token_in_flight_full, 1);
    assert_eq!(answer(&e.dispatch_mint(entry, false).err().unwrap()).0, 503);
    let entry = Pending { conn: 9, stream: 2, stage: Stage::Mint, ..Pending::zero() };
    assert_eq!(answer(&e.sent(0, entry, false).unwrap()).0, 503);
    assert_eq!(e.token_in_flight_full, 3);
}

// Resource requests.

fn gate() -> Gate {
    Gate::module_new(true, b"aal2", 60)
}

#[test]
fn methods_and_headers() {
    assert_eq!((method_name(1), method_name(7), method_name(9)), ("GET", "DELETE", ""));
    let block = b"Host: a\r\nDPoP:  p \r\nX: y";
    assert_eq!(header_value(block, b"dpop"), Some(&b"p"[..]));
    assert_eq!(header_value(block, b"x"), Some(&b"y"[..]));
    assert_eq!(header_value(block, b"y"), None);
    assert_eq!(strip_dpop_scheme(b"dpop tok"), Some(&b"tok"[..]));
    assert_eq!(strip_dpop_scheme(b"Bearer tok"), None);
    assert_eq!(strip_dpop_scheme(b"dpop"), None);
    assert_eq!(copy_into(b"ab", 2), Some(b"ab".to_vec()));
    assert_eq!((copy_into(b"", 2), copy_into(b"abc", 2)), (None, None));
}

#[test]
fn what_a_gate_refuses_at_once() {
    let mut g = gate();
    let mut ask = |r: &[u8], empty: bool, now: Option<u64>| match g.handle_request(r, empty, now) {
        GateStep::Reply(reply) => {
            assert_eq!(reply.content_type, "text/plain");
            (reply.status, reply.body)
        }
        _ => panic!("a reply"),
    };
    let whole = request(1, "/r", HEADERS, "");
    assert_eq!(ask(&whole, true, Some(NOW)), (503, b"no verifying key".to_vec()));
    let cut = &whole[..whole.len() - 1];
    assert_eq!(ask(cut, false, Some(NOW)), (401, b"invalid access token".to_vec()));
    let unproved = request(1, "/r", "authorization: DPoP cred\r\n", "");
    assert_eq!(ask(&unproved, false, Some(NOW)), (401, b"invalid dpop proof".to_vec()));
    let bare = request(1, "/r", "dpop: proof\r\n", "");
    assert_eq!(ask(&bare, false, Some(NOW)), (401, b"invalid access token".to_vec()));
    assert_eq!(ask(&whole, false, None), (401, b"invalid dpop proof".to_vec()));
    assert_eq!((g.gate_no_key, g.gate_bad_token, g.gate_bad_proof), (1, 2, 2));
    assert!(matches!(g.handle_request(&[0; 11], true, None), GateStep::Ignore));
    match g.handle_request(&whole, false, Some(NOW)) {
        GateStep::Authenticate(p) => {
            assert_eq!((&p.token[..], &p.proof[..]), (&b"cred"[..], &b"proof"[..]));
            assert_eq!((p.method, &p.uri[..], p.now), ("GET", &b"/r"[..], NOW));
        }
        _ => panic!("a presentation"),
    }
}

const TOKEN: &str = r#"{"sub":"tenant_1","acr":"aal2","auth_time":1699999990,"amr":["pop","otp"]}"#;

#[test]
fn the_assurance_floor() {
    let g = gate();
    assert_eq!(g.min_level, AssuranceLevel::Aal2);
    assert!(g.check_assurance(TOKEN.as_bytes(), true, NOW));
    assert!(!g.check_assurance(TOKEN.as_bytes(), false, NOW));
    assert!(g.check_assurance(TOKEN.as_bytes(), true, NOW + 50));
    assert!(!g.check_assurance(TOKEN.as_bytes(), true, NOW + 51));
    assert!(!g.check_assurance(br#"{"auth_time":1699999990}"#, true, NOW));
    assert!(!g.check_assurance(br#"{"acr":"aal1","auth_time":1699999990}"#, true, NOW));
    assert!(!g.check_assurance(br#"{"acr":"aal2"}"#, true, NOW));
    let open = Gate::module_new(false, b"", 0);
    assert_eq!(open.min_level, AssuranceLevel::Aal1);
    assert!(open.check_assurance(b"{}", false, NOW));
    let e = evidence_from(TOKEN.as_bytes());
    assert!(e.pop && e.otp && !e.email);
    assert_eq!((e.binding, e.auth_time), (KeyBinding::Unstated, 1699999990));
}

#[test]
fn a_checked_request_is_admitted_or_not() {
    let mut g = gate();
    let held = || {
        Ok(Held {
            claims: TOKEN.as_bytes().to_vec(),
            thumbprint: b"thumb".to_vec(),
            proof_id: [5; 32],
        })
    };
    let admitted = g.admit_request(9, 2, held(), true, NOW).ok().unwrap();
    assert_eq!((&admitted.subject[..], admitted.proof_id), (&b"tenant_1"[..], [5; 32]));
    let low = g.admit_request(9, 2, held(), false, NOW).err().unwrap();
    assert_eq!(answer(&low), (403, &b"insufficient authentication assurance"[..]));
    for (why, status) in [
        (AuthError::NotBound, 401),
        (AuthError::Proof, 401),
        (AuthError::Replay, 401),
        (AuthError::Credential, 401),
        (AuthError::Overflow, 401),
    ] {
        let reply = g.admit_request(9, 2, Err(why), true, NOW).err().unwrap();
        assert_eq!(answer(&reply).0, status);
    }
    assert_eq!(
        (g.gate_assurance, g.gate_bad_proof, g.gate_bad_token, g.gate_not_bound),
        (1, 3, 2, 1)
    );
    assert_eq!(answer(&g.admit_locally(9, 2, b"tenant_1")), (200, &b"tenant_1"[..]));
    assert_eq!((Refusal::Assurance.status(), Refusal::NoKey.status()), (403, 503));
    assert_eq!(Refusal::Token.reason(), "invalid access token");
}

fn claim_reply(correlation: u32, status: Status) -> StateReply {
    StateReply { client: STATE_CLIENT, correlation, status, value: Vec::new(), etag: Vec::new() }
}

fn pend(g: &mut Gate) -> u32 {
    let c = g.claim_and_pend(9, 2, b"tenant_1", &[5; 32], Some(NOW)).ok().unwrap();
    assert_eq!((c.expires_at, &c.replay_key[..]), (NOW + 300, &encode(&[5; 32])[..]));
    let corr = c.entry.state_corr;
    assert!(g.claim_sent(c.index, c.entry, true).is_none());
    corr
}

#[test]
fn a_claim_decides_the_admission() {
    let mut g = gate();
    let corr = pend(&mut g);
    let reply = g.drain_claims(&claim_reply(corr, Status::Success)).unwrap();
    assert_eq!(answer(&reply), (200, &b"tenant_1"[..]));
    assert!(g.drain_claims(&claim_reply(corr, Status::Success)).is_none());
    let corr = pend(&mut g);
    let reply = g.drain_claims(&claim_reply(corr, Status::Conflict)).unwrap();
    assert_eq!(answer(&reply), (401, &b"proof_replayed"[..]));
    let corr = pend(&mut g);
    let other = StateReply { client: 1, ..claim_reply(corr, Status::Success) };
    assert!(g.drain_claims(&other).is_none());
    let reply = g.drain_claims(&claim_reply(corr, Status::NotFound)).unwrap();
    assert_eq!(answer(&reply), (503, &b"state_unavailable"[..]));
    assert_eq!(
        (g.gate_admitted, g.gate_replayed_ledger, g.gate_state_unavailable),
        (1, 1, 1)
    );
}

#[test]
fn a_claim_that_cannot_be_made() {
    let mut g = gate();
    assert!(g.claim_and_pend(9, 2, b"s", &[5; 32], None).is_err());
    let c = g.claim_and_pend(9, 2, b"s", &[5; 32], Some(NOW)).ok().unwrap();
    assert_eq!(answer(&g.claim_sent(c.index, c.entry, false).unwrap()).0, 503);
    for _ in 0..MAX_PENDING_CLAIMS {
        pend(&mut g);
    }
    assert!(g.claim_and_pend(9, 2, b"s", &[5; 32], Some(NOW)).is_err());
    assert_eq!(g.gate_state_unavailable, 3);
}
