//! Who holds the writer handle. The handle is a record beside the store, which is read and replaced
//! as one step; whoever does not renew it in time loses it.

use vstd::prelude::*;

use crate::config::{Config, LeaseWait, OpenMode};
use crate::dict::opt_view;
use crate::order::same;
use crate::status::{after_claim, Claim, Standby, Wait};

verus! {

/// The record of the writer handle: who holds it, and until when, in milliseconds.
#[derive(Clone, Debug, PartialEq)]
pub struct Lock {
    pub owner: Option<String>,
    pub until: u64,
}

/// `now` and a span, or the end of time.
pub open spec fn lapse(now: u64, ttl: u64) -> u64 {
    if now + ttl > u64::MAX {
        u64::MAX
    } else {
        (now + ttl) as u64
    }
}

fn lapses(now: u64, ttl: u64) -> (r: u64)
    ensures
        r == lapse(now, ttl),
{
    if ttl > u64::MAX - now {
        u64::MAX
    } else {
        now + ttl
    }
}

/// A handle of this config asks for the writer handle.
pub open spec fn claims(c: Config) -> bool {
    c.open_mode == OpenMode::ReadWrite
}

/// Whether a handle of this config asks for the writer handle: only a writer does.
pub fn asks(config: &Config) -> (r: bool)
    ensures
        r == claims(*config),
{
    match config.open_mode {
        OpenMode::ReadWrite => true,
        OpenMode::ReadOnly => false,
    }
}

impl Lock {
    /// Somebody holds it, and has not been silent for too long.
    pub open spec fn held(&self, now: u64) -> bool {
        self.owner is Some && now < self.until
    }

    pub fn free() -> (r: Lock)
        ensures
            r.owner is None,
    {
        Lock { owner: None, until: 0 }
    }

    /// Take the handle, unless a live holder has it.
    pub fn claim(&mut self, owner: &str, now: u64, ttl: u64) -> (r: Claim)
        ensures
            old(self).held(now) ==> r == Claim::Held && *final(self) == *old(self),
            !old(self).held(now) ==> {
                &&& r == Claim::Taken
                &&& opt_view(final(self).owner) == Some(owner@)
                &&& final(self).until == lapse(now, ttl)
            },
    {
        if self.owner.is_some() && now < self.until {
            return Claim::Held;
        }
        self.owner = Some(owner.to_owned());
        self.until = lapses(now, ttl);
        Claim::Taken
    }

    fn is_owned(&self, owner: &str) -> (r: bool)
        ensures
            r == (opt_view(self.owner) == Some(owner@)),
    {
        match &self.owner {
            Some(o) => same(o.as_str(), owner),
            None => false,
        }
    }

    /// Hold the handle for longer; `false` where it has gone to somebody else.
    pub fn renew(&mut self, owner: &str, now: u64, ttl: u64) -> (r: bool)
        ensures
            r == (opt_view(old(self).owner) == Some(owner@)),
            final(self).owner == old(self).owner,
            final(self).until == if r {
                lapse(now, ttl)
            } else {
                old(self).until
            },
    {
        if !self.is_owned(owner) {
            return false;
        }
        self.until = lapses(now, ttl);
        true
    }

    /// Give the handle back, where it is still held by `owner`.
    pub fn release(&mut self, owner: &str)
        ensures
            opt_view(old(self).owner) == Some(owner@) ==> final(self).owner is None,
            opt_view(old(self).owner) != Some(owner@) ==> *final(self) == *old(self),
    {
        if self.is_owned(owner) {
            self.owner = None;
        }
    }
}

/// A second live writer is shut out: while the handle that was taken at `then` has not lapsed, every
/// claim finds it held, and whoever does not wait is told that the store is locked.
pub proof fn a_second_live_writer_is_shut_out(
    l: Lock,
    then: u64,
    ttl: u64,
    now: u64,
    s: Standby,
    noise: u64,
)
    requires
        l.owner is Some,
        l.until == lapse(then, ttl),
        now < lapse(then, ttl),
        s.wait == LeaseWait::Fail,
    ensures
        l.held(now),
        after_claim(s, Claim::Held, now, noise) == Wait::Locked,
{
}

/// A writer that has let go shuts nobody out, and a reader never asks.
pub proof fn a_released_handle_is_free(l: Lock, now: u64, c: Config)
    requires
        l.owner is None,
    ensures
        !l.held(now),
        c.open_mode == OpenMode::ReadOnly ==> !claims(c),
{
}

} // verus!
