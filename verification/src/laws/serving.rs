//! What a handle says of itself, and how long one waits for another to let go.

use vstd::prelude::*;

use crate::config::{LeaseWait, OpenMode};
use crate::disk::Entry;
use crate::status::{
    after_claim, at_or_above, pause, role_of, seconds_since, Claim, Role, Standby, Wait,
};
use crate::store::Store;

verus! {

/// What a handle is: a store in memory is neither; on shared storage a writer and a reader are
/// named as such.
pub proof fn what_a_handle_is(s: Store)
    ensures
        s.in_memory <==> role_of(s) == Role::InMemory,
        !s.in_memory && !s.config.cluster && s.config.open_mode == OpenMode::ReadWrite ==> role_of(
            s,
        ) == Role::Writer,
        !s.in_memory && !s.config.cluster && s.config.open_mode == OpenMode::ReadOnly ==> role_of(s)
            == Role::Reader,
        !s.in_memory && s.config.cluster && s.config.open_mode == OpenMode::ReadWrite ==> role_of(s)
            == Role::ClusterWriter,
        !s.in_memory && s.config.cluster && s.config.open_mode == OpenMode::ReadOnly ==> role_of(s)
            == Role::ClusterReader,
{
}

/// Full seconds are counted since a time in milliseconds, none where it has not come yet.
pub proof fn full_seconds_are_counted(then_at: u64, now: u64)
    ensures
        now < then_at ==> seconds_since(then_at, now) == 0,
        then_at <= now ==> 1000 * seconds_since(then_at, now) <= now - then_at < 1000 * (
        seconds_since(then_at, now) + 1),
{
}

/// The versions that a floor leaves are those that are not below it, in their order.
pub proof fn a_floor_leaves_the_later_versions(h: Seq<Entry>, e: Entry, floor: u64)
    ensures
        at_or_above(Seq::<Entry>::empty(), Some(floor)).len() == 0,
        at_or_above(h.push(e), None) == at_or_above(h, None).push(e.version),
        e.version >= floor ==> at_or_above(h.push(e), Some(floor)) == at_or_above(
            h,
            Some(floor),
        ).push(e.version),
        e.version < floor ==> at_or_above(h.push(e), Some(floor)) == at_or_above(h, Some(floor)),
{
    assert(h.push(e).drop_last() =~= h);
}

/// A claim is tried again after an eighth of the time that a silent holder keeps the handle, but
/// not before a quarter of a second, and not after more than two.
pub proof fn how_long_a_pause_is(lock_ttl: u64)
    ensures
        lock_ttl <= 2_000 ==> pause(lock_ttl) == 250_000_000,
        2_000 <= lock_ttl <= 16_000 ==> pause(lock_ttl) * 8 == lock_ttl * 1_000_000,
        lock_ttl >= 16_000 ==> pause(lock_ttl) == 2_000_000_000,
{
}

/// What follows a claim: with the handle one goes on; without it one gives up at once where nobody
/// is to wait, when the time is up where it is limited, and never where it is not; giving up after
/// the backend has failed names the failure. Between two claims the pause is drawn out by less
/// than a quarter.
pub proof fn what_follows_a_claim(s: Standby, claim: Claim, now: u64, noise: u64)
    ensures
        ({
            let next = after_claim(s, claim, now, noise);
            let up = s.wait matches LeaseWait::Timeout(limit) && now >= s.since + limit;
            &&& claim == Claim::Taken <==> next == Wait::Proceed
            &&& claim == Claim::Held && s.wait == LeaseWait::Fail ==> next == Wait::Locked
            &&& claim == Claim::Failed && s.wait == LeaseWait::Fail ==> next == Wait::Fault
            &&& claim == Claim::Held && up && !s.failed ==> next == Wait::Locked
            &&& claim == Claim::Held && up && s.failed ==> next == Wait::Fault
            &&& claim == Claim::Failed && up ==> next == Wait::Fault
            &&& claim != Claim::Taken && s.wait == LeaseWait::Forever ==> next is Retry
            &&& claim != Claim::Taken && s.wait is Timeout && !up ==> next is Retry
            &&& next matches Wait::Retry(t) ==> pause(s.lock_ttl) <= t && 4 * t < 5 * pause(
                s.lock_ttl,
            )
        }),
{
    how_long_a_pause_is(s.lock_ttl);
    let p = pause(s.lock_ttl) as int;
    let n = noise as int;
    assert(0 <= n % (p / 4) < p / 4) by (nonlinear_arith)
        requires
            p >= 250_000_000,
            n >= 0,
    ;
    assert(noise % (pause(s.lock_ttl) / 4) == n % (p / 4));
}

} // verus!
