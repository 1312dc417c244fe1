//! What a store shares with those who watch it from other threads: a flag and a time. Others may
//! change them at any moment, so that two looks may differ. What is stated is that a look is a load
//! of the shared cell, and that a change is a store to it.

use std::sync::atomic::{AtomicBool, AtomicU64};
use std::sync::Arc;

use vstd::prelude::*;

verus! {

/// A look at the latch may find `r`.
pub open spec fn reads(latch: AtomicBool, r: bool) -> bool {
    call_ensures(AtomicBool::load, (&latch, std::sync::atomic::Ordering::Acquire), r)
}

/// A look at the stamp may find `t`.
pub open spec fn says(stamp: AtomicU64, t: u64) -> bool {
    call_ensures(AtomicU64::load, (&stamp, std::sync::atomic::Ordering::Acquire), t)
}

/// The latch was raised.
pub open spec fn raised(latch: AtomicBool) -> bool {
    call_ensures(AtomicBool::store, (&latch, true, std::sync::atomic::Ordering::Release), ())
}

/// The stamp was set to `t`.
pub open spec fn noted(stamp: AtomicU64, t: u64) -> bool {
    call_ensures(AtomicU64::store, (&stamp, t, std::sync::atomic::Ordering::Release), ())
}

/// A latch that nobody has raised yet.
pub(crate) fn latch() -> Arc<AtomicBool> {
    Arc::new(AtomicBool::new(false))
}

/// Raise a latch, for good.
pub(crate) fn raise(latch: &Arc<AtomicBool>)
    ensures
        raised(**latch),
{
    latch.store(true, std::sync::atomic::Ordering::Release);
}

pub(crate) fn is_raised(latch: &Arc<AtomicBool>) -> (r: bool)
    ensures
        reads(**latch, r),
{
    latch.load(std::sync::atomic::Ordering::Acquire)
}

/// A stamp that says `t`.
pub(crate) fn stamp(t: u64) -> Arc<AtomicU64> {
    Arc::new(AtomicU64::new(t))
}

pub(crate) fn note(stamp: &Arc<AtomicU64>, t: u64)
    ensures
        noted(**stamp, t),
{
    stamp.store(t, std::sync::atomic::Ordering::Release);
}

pub(crate) fn read(stamp: &Arc<AtomicU64>) -> (r: u64)
    ensures
        says(**stamp, r),
{
    stamp.load(std::sync::atomic::Ordering::Acquire)
}

} // verus!
