use kagi::ledger::{replay_claim_result, ReplayClaim, Status};
use kagi::security_state::{
    encode_delete_arg, encode_head_arg, encode_put_arg, encode_range_arg, match_authority,
    parse_head, status_only, Answer, Authority, Ledger, Operation, Outcome, Precondition, ReadStep,
    Request, Step, Ticket, WriteStep, CONTENT_TYPE,
};

const TICKET: Ticket = Ticket { correlation: 7, client: 3 };

fn ticket() -> Ticket {
    TICKET
}

fn ledger() -> Ledger {
    let mut l = Ledger::module_new(b"single-node", 1024, 64);
    assert!(l.probe());
    l.probe_answered(Outcome::Absent);
    l
}

fn request(operation: Operation, etag: &[u8]) -> Option<Request> {
    Some(Request {
        operation,
        correlation: 7,
        client: 3,
        key: Some(b"kagi/device/dev_1".to_vec()),
        value: b"value".to_vec(),
        etag: etag.to_vec(),
    })
}

fn head(size: u64, etag: &[u8]) -> Vec<u8> {
    let mut r = size.to_le_bytes().to_vec();
    r.extend_from_slice(&99u64.to_le_bytes());
    r.push(4);
    r.extend_from_slice(b"type");
    r.push(etag.len() as u8);
    r.extend_from_slice(etag);
    r
}

fn status(answer: &Answer) -> Status {
    assert_eq!((answer.reply.correlation, answer.reply.client), (7, 3));
    answer.reply.status
}

fn refused(step: Step) -> Status {
    match step {
        Step::Reply(answer) => status(&answer),
        _ => panic!("an answer"),
    }
}

#[test]
fn an_authority_is_named_in_full() {
    assert_eq!(match_authority(b"single-node"), Authority::SingleNode);
    assert_eq!(match_authority(b"replicated"), Authority::Replicated);
    assert_eq!(match_authority(b"replicate"), Authority::Undeclared);
    assert_eq!(match_authority(b""), Authority::Undeclared);
}

#[test]
fn heads_are_read() {
    assert_eq!(parse_head(&head(12, b"e1"), 64), Some((12, b"e1".to_vec())));
    assert_eq!(parse_head(&head(12, b"e1"), 1), None);
    let whole = head(12, b"e1");
    assert_eq!(parse_head(&whole[..whole.len() - 1], 64), None);
    assert_eq!(parse_head(&whole[..16], 64), None);
}

#[test]
fn argument_blocks() {
    let head = encode_head_arg(64, b"key", 1, 2).unwrap();
    assert_eq!(head, b"\x03\0key\x01\0\0\0\0\0\0\0\0\x01\0\0\x02\0\0\0\0\0\0\0\x3e\0");
    assert!(encode_head_arg(26, b"key", 1, 2).is_none());
    let put = encode_put_arg(512, b"key", 1, 5, Precondition::Etag, b"e1", 2).unwrap();
    assert!(put.starts_with(b"\x03\0key"));
    assert_eq!(put[5] as usize, CONTENT_TYPE.len());
    assert_ne!(put, encode_put_arg(512, b"key", 1, 5, Precondition::Etag, b"e2", 2).unwrap());
    assert_ne!(put, encode_put_arg(512, b"key", 1, 5, Precondition::Absent, b"e1", 2).unwrap());
    assert!(encode_put_arg(60, b"key", 1, 5, Precondition::Etag, b"e1", 2).is_none());
    let delete = encode_delete_arg(64, b"k", b"e", 2).unwrap();
    assert_eq!(delete, b"\x01\0k\x02\x01e\x02\0\0\0\0\0\0\0\x3e\0");
    assert!(encode_delete_arg(15, b"k", b"e", 2).is_none());
    assert_eq!(encode_range_arg(5, 1), b"\0\0\0\0\0\0\0\0\x05\0\0\0\x01\0\0\0\0\0\0\0");
    assert_eq!((Precondition::Absent.code(), Precondition::Etag.code()), (1, 2));
}

#[test]
fn a_ledger_that_nobody_declared_refuses() {
    let mut l = Ledger::module_new(b"", 1024, 64);
    assert!(!l.probe());
    assert_eq!(refused(l.handle_request(request(Operation::Get, b""))), Status::Unavailable);
    assert_eq!(l.state_unavailable, 1);
    let mut l = Ledger::module_new(b"replicated", 1024, 64);
    assert!(l.probe());
    l.probe_answered(Outcome::Unsupported);
    assert!(l.unavailable);
}

#[test]
fn requests_reach_the_provider_with_their_condition() {
    let mut l = ledger();
    match l.handle_request(request(Operation::Get, b"")) {
        Step::Head { ticket, key } => {
            assert_eq!(ticket, TICKET);
            assert_eq!(key, b"kagi/device/dev_1");
        }
        _ => panic!("a head"),
    }
    match l.handle_request(request(Operation::PutAbsent, b"")) {
        Step::Put { precondition, guard, value, .. } => {
            assert_eq!(precondition, Precondition::Absent);
            assert!(guard.is_empty());
            assert_eq!(value, b"value");
        }
        _ => panic!("a write"),
    }
    match l.handle_request(request(Operation::Cas, b"e1")) {
        Step::Put { precondition, guard, .. } => {
            assert_eq!((precondition, &guard[..]), (Precondition::Etag, &b"e1"[..]));
        }
        _ => panic!("a write"),
    }
    match l.handle_request(request(Operation::Delete, b"e1")) {
        Step::Delete { guard, .. } => assert_eq!(guard, b"e1"),
        _ => panic!("a removal"),
    }
    assert_eq!((l.state_get, l.state_put_absent, l.state_cas, l.state_delete), (1, 1, 1, 1));
}

#[test]
fn requests_that_are_malformed() {
    let mut l = ledger();
    assert!(matches!(l.handle_request(None), Step::Drop));
    assert_eq!(refused(l.handle_request(request(Operation::Cas, b""))), Status::Malformed);
    assert_eq!(refused(l.handle_request(request(Operation::Delete, b""))), Status::Malformed);
    assert_eq!(refused(l.handle_request(request(Operation::Other, b""))), Status::Malformed);
    let keyless = Request { key: None, ..request(Operation::Get, b"").unwrap() };
    assert_eq!(refused(l.handle_request(Some(keyless))), Status::Malformed);
    assert_eq!(l.state_malformed, 5);
    let long = Request { key: Some(vec![b'k'; 500]), ..request(Operation::PutAbsent, b"").unwrap() };
    assert_eq!(refused(l.handle_request(Some(long))), Status::Full);
}

#[test]
fn only_an_absent_record_is_a_miss() {
    let mut l = ledger();
    let answer = |step: ReadStep| match step {
        ReadStep::Reply(answer) => {
            assert!(answer.read);
            status(&answer)
        }
        ReadStep::Body { .. } => panic!("an answer"),
    };
    let good = head(5, b"e1");
    assert_eq!(answer(l.do_get(ticket(), Outcome::Absent, true, b"")), Status::NotFound);
    assert_eq!(answer(l.do_get(ticket(), Outcome::Failed, true, b"")), Status::Unavailable);
    assert_eq!(answer(l.do_get(ticket(), Outcome::Done(30), false, &good)), Status::Unavailable);
    assert_eq!(answer(l.do_get(ticket(), Outcome::Done(0), true, b"")), Status::Unavailable);
    let large = head(1025, b"e1");
    assert_eq!(answer(l.do_get(ticket(), Outcome::Done(30), true, &large)), Status::Unavailable);
    assert_eq!((l.state_unavailable, l.state_read_too_weak), (1, 1));
    match l.do_get(ticket(), Outcome::Done(30), true, &good) {
        ReadStep::Body { size, etag } => {
            assert_eq!(size, 5);
            let read = l.read_body(ticket(), etag, Some(b"value".to_vec()));
            assert_eq!(status(&read), Status::Success);
            assert_eq!((&read.reply.value[..], &read.reply.etag[..]), (&b"value"[..], &b"e1"[..]));
        }
        ReadStep::Reply(_) => panic!("a body"),
    }
    assert_eq!(status(&l.read_body(ticket(), Vec::new(), None)), Status::Unavailable);
}

#[test]
fn a_lost_race_is_a_conflict() {
    let mut l = ledger();
    let answer = |step: WriteStep| match step {
        WriteStep::Reply(answer) => status(&answer),
        WriteStep::Head => panic!("an answer"),
    };
    assert_eq!(answer(l.do_write(ticket(), Outcome::Exists, true)), Status::Conflict);
    assert_eq!(answer(l.do_write(ticket(), Outcome::Moved, true)), Status::Conflict);
    assert_eq!(answer(l.do_write(ticket(), Outcome::Failed, true)), Status::Unavailable);
    assert_eq!(answer(l.do_write(ticket(), Outcome::Done(0), false)), Status::Unavailable);
    assert!(matches!(l.do_write(ticket(), Outcome::Done(0), true), WriteStep::Head));
    assert_eq!((l.state_conflict, l.state_unavailable), (2, 2));
    let written = l.written(ticket(), Some(&head(5, b"e2")));
    assert_eq!((status(&written), &written.reply.etag[..]), (Status::Success, &b"e2"[..]));
    assert!(l.written(ticket(), None).reply.etag.is_empty());
}

#[test]
fn a_stale_read_replaces_nothing() {
    let mut l = ledger();
    let etag = match l.do_get(ticket(), Outcome::Done(30), true, &head(5, b"e1")) {
        ReadStep::Body { etag, .. } => etag,
        ReadStep::Reply(_) => panic!("a body"),
    };
    let outcome = match l.handle_request(request(Operation::Cas, &etag)) {
        Step::Put { guard, .. } if guard == b"e2" => Outcome::Done(0),
        Step::Put { .. } => Outcome::Moved,
        _ => panic!("a write"),
    };
    match l.do_write(ticket(), outcome, true) {
        WriteStep::Reply(answer) => assert_eq!(status(&answer), Status::Conflict),
        WriteStep::Head => panic!("an answer"),
    }
}

#[test]
fn removals() {
    let mut l = ledger();
    assert_eq!(status(&l.do_delete(ticket(), Outcome::Done(0))), Status::Success);
    assert_eq!(status(&l.do_delete(ticket(), Outcome::Absent)), Status::NotFound);
    assert_eq!(status(&l.do_delete(ticket(), Outcome::Moved)), Status::Conflict);
    assert_eq!(status(&l.do_delete(ticket(), Outcome::Failed)), Status::Unavailable);
    assert_eq!(status(&status_only(ticket(), Status::Full, true)), Status::Full);
}

#[test]
fn a_claim_that_conflicts_is_a_replay() {
    assert_eq!(replay_claim_result(Status::Success), ReplayClaim::Fresh);
    assert_eq!(replay_claim_result(Status::Conflict), ReplayClaim::Replayed);
    assert_eq!(replay_claim_result(Status::NotFound), ReplayClaim::Unavailable);
    assert_eq!(replay_claim_result(Status::Full), ReplayClaim::Unavailable);
}
