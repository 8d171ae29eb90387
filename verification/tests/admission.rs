use kagi::assurance::{Evidence, KeyBinding};
use kagi::base32::base32_encode;
use kagi::base64::encode;
use kagi::device_auth::{AuthError, Held};
use kagi::keys::Suite;
use kagi::ledger::{StateReply, Status};
use kagi::mint_admission::{
    establish_evidence, verify_presented_otp, Admission, AdmitErr, Ask, HandleStep, MintReply, MintStep, OtpOutcome, Pending, Refusal, Stage, StateStep, MAX_IN_FLIGHT,
    STATE_CLIENT,
};
use kagi::totp::hotp;

const NOW: u64 = 1_700_000_000;
const DEVICE: &str = r#"{"status":"active","amr":["email"],"key_binding":"software"}"#;

fn admission(mint_wired: bool) -> Admission {
    Admission::module_new(
        true,
        mint_wired,
        b"https://id.example",
        b"api",
        b"read",
        300,
        Suite::Ed25519,
    )
    .unwrap()
}

fn ask(grant: bool, otp: &str) -> Ask {
    Ask {
        corr: 77,
        method: b"POST".to_vec(),
        uri: b"/token".to_vec(),
        credential: b"cred".to_vec(),
        proof: b"proof".to_vec(),
        otp: otp.as_bytes().to_vec(),
        grant,
    }
}

fn held(claims: &str) -> Result<Held, AuthError> {
    Ok(Held {
        claims: claims.as_bytes().to_vec(),
        thumbprint: b"thumb".to_vec(),
        proof_id: [5; 32],
    })
}

const CLAIMS: &str = r#"{"sub":"tenant_1","device_id":"dev_1"}"#;

fn reply(correlation: u32, status: Status, value: &str) -> StateReply {
    StateReply {
        status,
        correlation,
        client: STATE_CLIENT,
        value: value.as_bytes().to_vec(),
        etag: Vec::new(),
    }
}

fn claim(a: &mut Admission, grant: bool, otp: &str) -> u32 {
    match a.handle(&ask(grant, otp), NOW, held(CLAIMS)) {
        HandleStep::Claim(c) => {
            let corr = c.entry.state_corr;
            assert!(a.claim_sent(c.index, c.entry, true).is_none());
            corr
        }
        HandleStep::Refuse(_) => panic!("a claim"),
    }
}

fn to_device(a: &mut Admission, grant: bool, otp: &str) -> u32 {
    let corr = claim(a, grant, otp);
    match a.drain_state(&reply(corr, Status::Success, "")) {
        StateStep::ReadDevice { index, entry } => {
            assert_eq!(entry.stage, Stage::Device);
            let corr = entry.state_corr;
            assert!(a.restaged(index, entry, true).is_none());
            corr
        }
        _ => panic!("a device read"),
    }
}

fn refused(step: StateStep) -> AdmitErr {
    match step {
        StateStep::Refuse(Refusal { corr: 77, status, .. }) => status,
        _ => panic!("a refusal"),
    }
}

fn entry(otp: &str, proved_at: u64) -> Pending {
    Pending { otp: otp.as_bytes().to_vec(), proved_at, ..Pending::zero() }
}

#[test]
fn admission_needs_a_ledger() {
    assert!(Admission::module_new(false, true, b"", b"", b"", 1, Suite::Es256).is_none());
    let a = admission(true);
    assert_eq!((a.next_corr, a.pending.len()), (1, MAX_IN_FLIGHT));
}

#[test]
fn what_is_refused_before_the_credential() {
    let mut a = admission(true);
    assert_eq!(a.precheck(&ask(false, ""), false, Some(NOW)), Ok(NOW));
    let bare = Ask { proof: Vec::new(), ..ask(true, "") };
    let e = a.precheck(&bare, false, Some(NOW)).unwrap_err();
    assert_eq!((e.corr, e.status, e.grant), (77, AdmitErr::Unauthenticated, true));
    assert_eq!(a.precheck(&ask(false, ""), true, Some(NOW)).unwrap_err().status, AdmitErr::NoKey);
    assert_eq!(a.precheck(&ask(false, ""), false, None).unwrap_err().status, AdmitErr::NoClock);
    assert_eq!((a.admit_unauthenticated, a.admit_unavailable), (1, 2));
}

#[test]
fn a_presenter_is_admitted_once_its_device_is_known() {
    let mut a = admission(false);
    match a.handle(&ask(false, ""), NOW, held(CLAIMS)) {
        HandleStep::Claim(c) => {
            assert_eq!(c.expires_at, NOW + 300);
            assert_eq!(c.entry.replay_key, encode(&[5; 32]));
            assert_eq!((&c.entry.sub[..], &c.entry.device_id[..]), (&b"tenant_1"[..], &b"dev_1"[..]));
        }
        HandleStep::Refuse(_) => panic!("a claim"),
    }
    let corr = to_device(&mut a, false, "");
    match a.drain_state(&reply(corr, Status::Success, DEVICE)) {
        StateStep::Admit(who) => {
            assert_eq!((who.corr, &who.sub[..]), (77, &b"tenant_1"[..]));
            assert_eq!((&who.device_id[..], &who.jkt[..]), (&b"dev_1"[..], &b"thumb"[..]));
            assert!(who.evidence.pop && who.evidence.email && !who.evidence.otp);
            assert_eq!(who.evidence.binding, KeyBinding::Software);
            assert_eq!(who.evidence.auth_time, NOW);
        }
        _ => panic!("an identity"),
    }
    assert_eq!(a.admit_ok, 1);
    assert!(a.pending.iter().all(|p| !p.live));
}

#[test]
fn presentations_that_do_not_hold() {
    let mut a = admission(true);
    let mut why = |auth: Result<Held, AuthError>| match a.handle(&ask(false, ""), NOW, auth) {
        HandleStep::Refuse(r) => r.status,
        HandleStep::Claim(_) => panic!("a refusal"),
    };
    assert_eq!(why(Err(AuthError::Replay)), AdmitErr::Replay);
    assert_eq!(why(Err(AuthError::NotBound)), AdmitErr::Unauthenticated);
    assert_eq!(why(held(r#"{"sub":"tenant_1"}"#)), AdmitErr::Unauthenticated);
    assert_eq!(why(held(r#"{"device_id":"dev_1"}"#)), AdmitErr::Unauthenticated);
    assert_eq!((a.admit_replay, a.admit_unauthenticated), (1, 3));
}

#[test]
fn a_full_table_refuses() {
    let mut a = admission(true);
    for _ in 0..MAX_IN_FLIGHT {
        claim(&mut a, false, "");
    }
    assert!(a.free_slot().is_none());
    match a.handle(&ask(false, ""), NOW, held(CLAIMS)) {
        HandleStep::Refuse(r) => assert_eq!(r.status, AdmitErr::StateUnavailable),
        HandleStep::Claim(_) => panic!("a refusal"),
    }
    assert_eq!(a.admit_in_flight_full, 1);
}

#[test]
fn a_replayed_proof_reaches_no_device() {
    let mut a = admission(true);
    let corr = claim(&mut a, false, "");
    assert_eq!(refused(a.drain_state(&reply(corr, Status::Conflict, ""))), AdmitErr::Replay);
    let corr = claim(&mut a, false, "");
    let lost = a.drain_state(&reply(corr, Status::Unavailable, ""));
    assert_eq!(refused(lost), AdmitErr::StateUnavailable);
    assert_eq!((a.admit_replay, a.admit_unavailable), (1, 1));
    assert!(matches!(a.drain_state(&reply(corr, Status::Success, "")), StateStep::Ignore));
    assert_eq!(a.admit_unmatched_reply, 1);
    let other = StateReply { client: 1, ..reply(corr, Status::Success, "") };
    assert!(matches!(a.drain_state(&other), StateStep::Ignore));
    assert_eq!(a.admit_unmatched_reply, 1);
}

#[test]
fn only_an_enrolled_device_is_admitted() {
    let mut a = admission(true);
    let corr = to_device(&mut a, true, "");
    let missing = a.drain_state(&reply(corr, Status::NotFound, ""));
    assert_eq!(refused(missing), AdmitErr::UnknownDevice);
    let corr = to_device(&mut a, true, "");
    let lost = a.drain_state(&reply(corr, Status::Malformed, ""));
    assert_eq!(refused(lost), AdmitErr::StateUnavailable);
    let corr = to_device(&mut a, true, "");
    let gone = a.drain_state(&reply(corr, Status::Success, r#"{"status":"revoked"}"#));
    assert_eq!(refused(gone), AdmitErr::Revoked);
    let corr = to_device(&mut a, true, "123456");
    let wrong = a.drain_state(&reply(corr, Status::Success, DEVICE));
    assert_eq!(refused(wrong), AdmitErr::Unauthenticated);
    assert_eq!(
        (a.admit_unknown_device, a.admit_unavailable, a.admit_revoked, a.admit_bad_otp),
        (1, 1, 1, 1)
    );
}

#[test]
fn a_grant_is_minted_under_the_deployments_policy() {
    let mut a = admission(true);
    let corr = to_device(&mut a, true, "");
    let mint_corr = match a.drain_state(&reply(corr, Status::Success, DEVICE)) {
        StateStep::Mint { index, entry, order } => {
            assert_eq!((&order.aud[..], &order.scope[..]), (&b"api"[..], &b"read"[..]));
            assert_eq!((&order.sub[..], &order.jkt[..]), (&b"tenant_1"[..], &b"thumb"[..]));
            assert_eq!((order.ttl_seconds, order.suite), (300, Suite::Ed25519));
            assert!(a.restaged(index, entry, true).is_none());
            order.correlation
        }
        _ => panic!("an order"),
    };
    let minted = |ok: bool, inline: bool| MintReply {
        correlation: mint_corr,
        ok,
        inline,
        body: b"tok".to_vec(),
    };
    match a.drain_mint(minted(true, true)) {
        MintStep::Token { corr, token } => assert_eq!((corr, &token[..]), (77, &b"tok"[..])),
        _ => panic!("a token"),
    }
    assert_eq!(a.grant_ok, 1);
    assert!(matches!(a.drain_mint(minted(true, true)), MintStep::Ignore));
}

#[test]
fn a_mint_that_fails() {
    let mut a = admission(false);
    let corr = to_device(&mut a, true, "");
    let none = a.drain_state(&reply(corr, Status::Success, DEVICE));
    assert_eq!(refused(none), AdmitErr::MintFailed);
    let mut a = admission(true);
    for (ok, inline) in [(false, true), (true, false)] {
        let corr = to_device(&mut a, true, "");
        match a.drain_state(&reply(corr, Status::Success, DEVICE)) {
            StateStep::Mint { index, entry, order } => {
                assert!(a.restaged(index, entry, true).is_none());
                let rep =
                    MintReply { correlation: order.correlation, ok, inline, body: b"t".to_vec() };
                match a.drain_mint(rep) {
                    MintStep::Refuse(r) => assert_eq!(r.status, AdmitErr::MintFailed),
                    _ => panic!("a refusal"),
                }
            }
            _ => panic!("an order"),
        }
    }
    let corr = to_device(&mut a, true, "");
    match a.drain_state(&reply(corr, Status::Success, DEVICE)) {
        StateStep::Mint { index, entry, .. } => {
            let r = a.restaged(index, entry, false).unwrap();
            assert_eq!((r.status, r.grant), (AdmitErr::MintFailed, true));
        }
        _ => panic!("an order"),
    }
    assert_eq!(a.grant_mint_failed, 3);
}

#[test]
fn a_send_that_fails_is_a_refusal() {
    let mut a = admission(true);
    match a.handle(&ask(false, ""), NOW, held(CLAIMS)) {
        HandleStep::Claim(c) => {
            let r = a.claim_sent(c.index, c.entry, false).unwrap();
            assert_eq!((r.corr, r.status), (77, AdmitErr::StateUnavailable));
        }
        HandleStep::Refuse(_) => panic!("a claim"),
    }
    let corr = claim(&mut a, false, "");
    match a.drain_state(&reply(corr, Status::Success, "")) {
        StateStep::ReadDevice { index, entry } => {
            let r = a.restaged(index, entry, false).unwrap();
            assert_eq!(r.status, AdmitErr::StateUnavailable);
        }
        _ => panic!("a device read"),
    }
    assert_eq!(a.admit_unavailable, 2);
}

#[test]
fn presented_codes() {
    let secret = b"12345678901234567890";
    let text = String::from_utf8(base32_encode(secret)).unwrap();
    let record = |confirmed: &str, used: &str| {
        format!(r#"{{"totp_secret":"{text}","totp_confirmed":"{confirmed}"{used}}}"#)
    };
    let code = format!("{:06}", hotp(secret, NOW / 30));
    let check = |otp: &str, record: &str| verify_presented_otp(&entry(otp, NOW), record.as_bytes());
    assert_eq!(check("", &record("true", "")), OtpOutcome::NonePresented);
    assert_eq!(check(&code, &record("true", "")), OtpOutcome::Verified);
    assert_eq!(check(&code, &record("false", "")), OtpOutcome::Refused);
    assert_eq!(check("12345", &record("true", "")), OtpOutcome::Refused);
    assert_eq!(check(&code, r#"{"totp_confirmed":"true"}"#), OtpOutcome::Refused);
    let used = format!(r#","totp_counter":{}"#, NOW / 30);
    assert_eq!(check(&code, &record("true", &used)), OtpOutcome::Refused);
    let mut a = admission(false);
    let corr = to_device(&mut a, false, &code);
    match a.drain_state(&reply(corr, Status::Success, &record("true", ""))) {
        StateStep::Admit(who) => assert!(who.evidence.otp && who.evidence.pop),
        _ => panic!("an identity"),
    }
}

#[test]
fn what_a_record_establishes() {
    let e: Evidence = establish_evidence(
        br#"{"amr":["webauthn","user"],"key_binding":"hardware"}"#,
        NOW,
        true,
    );
    assert!(e.pop && e.otp && e.webauthn && e.user);
    assert_eq!(e.binding, KeyBinding::Hardware);
    assert!(e.user_verified && e.phishing_resistant && !e.hwk);
    let e = establish_evidence(br#"{"amr":["hwk"],"user_verified":"true"}"#, NOW, false);
    assert!(e.pop && e.hwk && !e.otp && e.user_verified);
    assert_eq!(e.binding, KeyBinding::Software);
}
