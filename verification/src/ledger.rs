//! What a module asks of the ledger, and what the ledger answers.
use vstd::prelude::*;

verus! {

/// The ledger's answer to one request.
#[derive(Clone, Copy, Debug, PartialEq, Eq, Structural)]
pub enum Status {
    Success,
    NotFound,
    Conflict,
    Malformed,
    Unavailable,
    Full,
}

/// One reply of the ledger. The reply port fans out to every client.
pub struct StateReply {
    pub client: u8,
    pub correlation: u32,
    pub status: Status,
    pub value: Vec<u8>,
    pub etag: Vec<u8>,
}

/// What a claim of a replay identifier came to.
#[derive(Clone, Copy, Debug, PartialEq, Eq, Structural)]
pub enum ReplayClaim {
    Fresh,
    Replayed,
    Unavailable,
}

/// A claim creates a record only where there is none: a conflict is a replay, and anything but
/// success establishes nothing.
pub open spec fn claim_result(status: Status) -> ReplayClaim {
    match status {
        Status::Success => ReplayClaim::Fresh,
        Status::Conflict => ReplayClaim::Replayed,
        _ => ReplayClaim::Unavailable,
    }
}

pub fn replay_claim_result(status: Status) -> (r: ReplayClaim)
    ensures
        r == claim_result(status),
{
    match status {
        Status::Success => ReplayClaim::Fresh,
        Status::Conflict => ReplayClaim::Replayed,
        _ => ReplayClaim::Unavailable,
    }
}

/// A claim is fresh only where the ledger took it, and a replay only where the ledger had it:
/// whatever else the ledger says establishes nothing.
pub proof fn only_a_taken_claim_is_fresh(status: Status)
    ensures
        claim_result(status) == ReplayClaim::Fresh <==> status == Status::Success,
        claim_result(status) == ReplayClaim::Replayed <==> status == Status::Conflict,
{
}

} // verus!
