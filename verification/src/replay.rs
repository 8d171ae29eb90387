//! Proof identifiers that were seen, each remembered until the time that was given with it.
use vstd::prelude::*;

verus! {

/// How many identifiers are remembered at once.
pub const REPLAY_DEPTH: usize = 128;

/// What an identifier that was offered came to.
#[derive(Clone, Copy, Debug, PartialEq, Eq, Structural)]
pub enum Replay {
    Recorded,
    Seen,
    /// There is no room for it.
    Full,
}

/// One identifier, and until when it is remembered.
#[derive(Clone, Copy)]
pub struct Spent {
    pub id: [u8; 32],
    pub until: u64,
}

pub struct ReplayWindow {
    pub spent: Vec<Spent>,
}

fn same_id(a: &[u8; 32], b: &[u8; 32]) -> (r: bool)
    ensures
        r == (a@ == b@),
{
    crate::bytes::bytes_equal(a.as_slice(), b.as_slice())
}

impl ReplayWindow {
    pub open spec fn wf(self) -> bool {
        self.spent@.len() <= 128
    }

    /// The identifier was seen, and is remembered at `now`.
    pub open spec fn remembers(self, id: Seq<u8>, now: u64) -> bool {
        exists|i: int|
            0 <= i < self.spent@.len() && (#[trigger] self.spent@[i]).id@ == id && now
                < self.spent@[i].until
    }

    /// Every place is taken by an identifier that is remembered at `now`.
    pub open spec fn saturated(self, now: u64) -> bool {
        self.spent@.len() == 128 && forall|i: int|
            0 <= i < 128 ==> now < (#[trigger] self.spent@[i]).until
    }

    /// An identifier was offered at `now`, to be remembered until `until`: it is from then on,
    /// where it was recorded, and nothing else that was remembered is forgotten.
    pub open spec fn offered(
        before: Self,
        after: Self,
        id: Seq<u8>,
        now: u64,
        until: u64,
        r: Replay,
    ) -> bool {
        &&& after.wf()
        &&& r == if before.remembers(id, now) {
            Replay::Seen
        } else if before.saturated(now) {
            Replay::Full
        } else {
            Replay::Recorded
        }
        &&& forall|other: Seq<u8>, t: u64|
            now <= t ==> (#[trigger] after.remembers(other, t) == (before.remembers(other, t) || (r
                == Replay::Recorded && other == id && t < until)))
    }

    pub fn new() -> (r: Self)
        ensures
            r.wf(),
            forall|id: Seq<u8>, now: u64| !#[trigger] r.remembers(id, now),
    {
        ReplayWindow { spent: Vec::new() }
    }

    /// Offer an identifier that is to be remembered until `until`. One that is remembered is told
    /// so. A saturated window takes no other: to forget one under load would be to take it again
    /// under load.
    pub fn offer(&mut self, id: &[u8; 32], now: u64, until: u64) -> (r: Replay)
        requires
            old(self).wf(),
        ensures
            Self::offered(*old(self), *final(self), id@, now, until, r),
    {
        let mut place: Option<usize> = None;
        let mut i: usize = 0;
        while i < self.spent.len()
            invariant
                i <= self.spent@.len() <= 128,
                *self == *old(self),
                forall|j: int|
                    0 <= j < i ==> !((#[trigger] self.spent@[j]).id@ == id@ && now
                        < self.spent@[j].until),
                match place {
                    Some(p) => p < self.spent@.len() && self.spent@[p as int].until <= now,
                    None => forall|j: int| 0 <= j < i ==> now < (#[trigger] self.spent@[j]).until,
                },
            decreases self.spent@.len() - i,
        {
            if now < self.spent[i].until {
                if same_id(&self.spent[i].id, id) {
                    assert(old(self).spent@[i as int].id@ == id@);
                    return Replay::Seen;
                }
            } else if place.is_none() {
                place = Some(i);
            }
            i = i + 1;
        }
        assert(!old(self).remembers(id@, now));
        let one = Spent { id: *id, until };
        match place {
            Some(p) => {
                self.spent[p] = one;
                proof {
                    lemma_replaced(*old(self), *self, p as int, one, now);
                }
            },
            None => {
                if self.spent.len() >= REPLAY_DEPTH {
                    return Replay::Full;
                }
                self.spent.push(one);
                proof {
                    lemma_pushed(*old(self), *self, one);
                }
            },
        }
        Replay::Recorded
    }
}

proof fn lemma_replaced(before: ReplayWindow, after: ReplayWindow, p: int, one: Spent, now: u64)
    requires
        0 <= p < before.spent@.len(),
        before.spent@[p].until <= now,
        after.spent@ == before.spent@.update(p, one),
    ensures
        forall|other: Seq<u8>, t: u64|
            now <= t ==> (#[trigger] after.remembers(other, t) == (before.remembers(other, t) || (
            other == one.id@ && t < one.until))),
{
    assert forall|other: Seq<u8>, t: u64| now <= t implies (#[trigger] after.remembers(other, t) == (
    before.remembers(other, t) || (other == one.id@ && t < one.until))) by {
        if before.remembers(other, t) {
            let i = choose|i: int|
                0 <= i < before.spent@.len() && (#[trigger] before.spent@[i]).id@ == other && t
                    < before.spent@[i].until;
            assert(after.spent@[i] == before.spent@[i]);
        }
        if other == one.id@ && t < one.until {
            assert(after.spent@[p] == one);
        }
        if after.remembers(other, t) {
            let i = choose|i: int|
                0 <= i < after.spent@.len() && (#[trigger] after.spent@[i]).id@ == other && t
                    < after.spent@[i].until;
            if i != p {
                assert(before.spent@[i] == after.spent@[i]);
            }
        }
    }
}

proof fn lemma_pushed(before: ReplayWindow, after: ReplayWindow, one: Spent)
    requires
        after.spent@ == before.spent@.push(one),
    ensures
        forall|other: Seq<u8>, t: u64| #[trigger]
            after.remembers(other, t) == (before.remembers(other, t) || (other == one.id@ && t
                < one.until)),
{
    assert forall|other: Seq<u8>, t: u64| #[trigger]
        after.remembers(other, t) == (before.remembers(other, t) || (other == one.id@ && t
            < one.until)) by {
        let n = before.spent@.len() as int;
        if before.remembers(other, t) {
            let i = choose|i: int|
                0 <= i < before.spent@.len() && (#[trigger] before.spent@[i]).id@ == other && t
                    < before.spent@[i].until;
            assert(after.spent@[i] == before.spent@[i]);
        }
        if other == one.id@ && t < one.until {
            assert(after.spent@[n] == one);
        }
        if after.remembers(other, t) {
            let i = choose|i: int|
                0 <= i < after.spent@.len() && (#[trigger] after.spent@[i]).id@ == other && t
                    < after.spent@[i].until;
            if i < n {
                assert(before.spent@[i] == after.spent@[i]);
            }
        }
    }
}

/// A proof that was taken is not taken again while it can be shown: offered a second time before it
/// runs out, it is told as seen.
pub proof fn a_proof_is_taken_once(
    before: ReplayWindow,
    after: ReplayWindow,
    id: Seq<u8>,
    now: u64,
    until: u64,
    later: ReplayWindow,
    again: u64,
    again_until: u64,
    r: Replay,
)
    requires
        ReplayWindow::offered(before, after, id, now, until, Replay::Recorded),
        ReplayWindow::offered(after, later, id, again, again_until, r),
        now <= again < until,
    ensures
        r == Replay::Seen,
{
    assert(after.remembers(id, again));
}

/// One proof does not speak for another: what was not offered is not seen, and what is remembered
/// stays so until its own end.
pub proof fn other_proofs_are_not_touched(
    before: ReplayWindow,
    after: ReplayWindow,
    id: Seq<u8>,
    now: u64,
    until: u64,
    r: Replay,
    other: Seq<u8>,
    t: u64,
)
    requires
        ReplayWindow::offered(before, after, id, now, until, r),
        other != id,
        now <= t,
    ensures
        after.remembers(other, t) <==> before.remembers(other, t),
{
}

/// A window with a free place takes every proof that it does not remember.
pub proof fn a_new_proof_is_taken(
    before: ReplayWindow,
    after: ReplayWindow,
    id: Seq<u8>,
    now: u64,
    until: u64,
    r: Replay,
)
    requires
        ReplayWindow::offered(before, after, id, now, until, r),
        forall|i: int|
            0 <= i < before.spent@.len() && (#[trigger] before.spent@[i]).id@ == id
                ==> before.spent@[i].until <= now,
        before.spent@.len() < 128,
    ensures
        r == Replay::Recorded,
{
}

} // verus!
