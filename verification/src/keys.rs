//! Credential suites and the records of the key lifecycle.
use vstd::prelude::*;

verus! {

/// The credential suites that can sign here.
#[derive(Clone, Copy, Debug, PartialEq, Eq, Structural)]
pub enum Suite {
    Es256,
    Ed25519,
    MlDsa44,
    MlDsa65,
    MlDsa87,
}

/// Where a key stands in its life.
#[derive(Clone, Copy, Debug, PartialEq, Eq, Structural)]
pub enum KeyState {
    Added,
    Active,
    Retired,
}

/// What a key record is for.
#[derive(Clone, Copy, Debug, PartialEq, Eq, Structural)]
pub enum KeyUse {
    Sign,
    Verify,
}

/// One key of an issuer, as the lifecycle channel carries it.
pub struct KeyRecord {
    pub issuer: Vec<u8>,
    pub profile_id: u16,
    pub kid: Vec<u8>,
    /// Absent where the record names a suite that is not implemented.
    pub suite: Option<Suite>,
    pub state: KeyState,
    pub key_use: KeyUse,
    pub generation: u32,
    pub activate_after_unix: u64,
    pub remove_after_unix: u64,
    /// The vault label of a signing key, the public half of a verifying one.
    pub key_ref: Vec<u8>,
}

/// A reference to a key, with the argument of the transition that names it.
pub struct KeyRef {
    pub issuer: Vec<u8>,
    pub profile_id: u16,
    pub kid: Vec<u8>,
    pub arg: u64,
}

/// A correlation that has not just been used: the next one, and never zero.
pub open spec fn next_correlation(c: u32) -> u32 {
    if c == u32::MAX {
        1
    } else {
        (c + 1) as u32
    }
}

pub fn advance_correlation(c: u32) -> (r: u32)
    ensures
        r == next_correlation(c),
        r != 0,
{
    if c == u32::MAX {
        1
    } else {
        c + 1
    }
}

/// One more, unless the counter is full.
pub open spec fn counted(n: u32) -> u32 {
    if n == u32::MAX {
        n
    } else {
        (n + 1) as u32
    }
}

pub fn count(n: &mut u32)
    ensures
        *final(n) == counted(*old(n)),
{
    *n = (*n).saturating_add(1);
}

/// A correlation is never zero and never the one before it, and a counter grows by one until it is
/// full.
pub proof fn counters_move_on(n: u32)
    ensures
        next_correlation(n) != 0,
        next_correlation(n) != n || n == 1 && u32::MAX == 1,
        n < u32::MAX ==> next_correlation(n) == n + 1,
        n < u32::MAX ==> counted(n) == n + 1,
        n == u32::MAX ==> counted(n) == n,
{
}

} // verus!
