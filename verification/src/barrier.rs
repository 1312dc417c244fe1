//! Who takes the durable barrier that covers a write, and when: each write its own, or one for a
//! whole group.

use vstd::prelude::*;

verus! {

/// Whether the caller takes the barriers, and whether one is owed.
#[derive(Clone, Copy, Debug, PartialEq, Eq, Structural)]
pub struct Barrier {
    /// The caller takes the barrier: a write only appends.
    pub deferred: bool,
    /// Something was appended that no barrier has covered.
    pub owed: bool,
}

impl Barrier {
    /// Every write takes its own barrier, and none is owed.
    pub fn new() -> (r: Barrier)
        ensures
            r == (Barrier { deferred: false, owed: false }),
    {
        Barrier { deferred: false, owed: false }
    }

    /// Begin a group: from here on a write only appends. What was in force before comes back, for
    /// the end of the group.
    pub fn begin_deferred(&mut self) -> (before: bool)
        ensures
            before == old(self).deferred,
            *final(self) == (Barrier { deferred: true, ..*old(self) }),
    {
        let before = self.deferred;
        self.deferred = true;
        before
    }

    /// End a group. What it appended is still owed.
    pub fn end_deferred(&mut self, before: bool)
        ensures
            *final(self) == (Barrier { deferred: before, ..*old(self) }),
    {
        self.deferred = before;
    }

    /// Something was appended. Whether the barrier is to be taken at once.
    pub fn appended(&mut self) -> (now: bool)
        ensures
            now == !old(self).deferred,
            *final(self) == (Barrier { owed: true, ..*old(self) }),
    {
        self.owed = true;
        !self.deferred
    }

    /// Whether a commit has a barrier to take.
    pub fn due(&self) -> (r: bool)
        ensures
            r == self.owed,
    {
        self.owed
    }

    /// A barrier was taken and came through. One that failed is still owed.
    pub fn covered(&mut self)
        ensures
            *final(self) == (Barrier { owed: false, ..*old(self) }),
    {
        self.owed = false;
    }
}

/// The state after `n` writes whose barriers all come through, and how many they took.
pub open spec fn after_writes(b: Barrier, n: nat) -> (Barrier, nat)
    decreases n,
{
    if n == 0 {
        (b, 0)
    } else {
        let (mid, taken) = after_writes(b, (n - 1) as nat);
        if mid.deferred {
            (Barrier { owed: true, ..mid }, taken)
        } else {
            (Barrier { owed: false, ..mid }, taken + 1)
        }
    }
}

/// How many barriers a commit takes: one where any is owed.
pub open spec fn on_commit(b: Barrier) -> nat {
    if b.owed {
        1
    } else {
        0
    }
}

/// Outside a group every write takes its own barrier, and a commit then has none to take.
pub proof fn a_write_takes_its_own_barrier(b: Barrier, n: nat)
    requires
        !b.deferred,
    ensures
        after_writes(b, n).1 == n,
        n > 0 ==> on_commit(after_writes(b, n).0) == 0,
        !after_writes(b, n).0.deferred,
    decreases n,
{
    if n > 0 {
        a_write_takes_its_own_barrier(b, (n - 1) as nat);
    }
}

/// Writes in a group take no barrier, and one barrier of the commit covers them all. A second
/// commit has none to take.
pub proof fn a_group_shares_one_barrier(b: Barrier, n: nat)
    requires
        b.deferred,
        n > 0,
    ensures
        after_writes(b, n) == (Barrier { owed: true, ..b }, 0nat),
        on_commit(after_writes(b, n).0) == 1,
        on_commit(Barrier { owed: false, ..after_writes(b, n).0 }) == 0,
    decreases n,
{
    if n > 1 {
        a_group_shares_one_barrier(b, (n - 1) as nat);
    } else {
        assert(after_writes(b, 0) == (b, 0nat));
    }
}

} // verus!
