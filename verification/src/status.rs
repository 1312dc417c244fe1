//! Who a handle is, how current it is, and how it comes to write.

use std::sync::atomic::{AtomicBool, AtomicU64};
use std::sync::Arc;

use vstd::prelude::*;

use crate::config::{
    merged, no_profile, quant_fits, AnnConfig, Config, LeaseWait, OpenMode, OpenProfile,
};
use crate::dict::{dup_option, opt_view, views, Dup};
use crate::disk::{chronicled, in_version_order, Disk, Entry};
use crate::latch::{is_raised, note, noted, raise, raised, read, reads, says};
use crate::open::{carries_on, config_refusal};
use crate::store::{Store, StoreError};
use crate::undo::grew;

verus! {

/// What a handle is.
#[derive(Clone, Copy, Debug, PartialEq, Eq, Structural)]
pub enum Role {
    InMemory,
    Writer,
    Reader,
    ClusterWriter,
    ClusterReader,
}

/// Who a handle is and how current it is.
#[derive(Clone, Debug)]
pub struct ClusterStatus {
    pub role: Role,
    pub cluster: bool,
    /// A lock or lease is held, and no one has taken over.
    pub holds_writer_handle: bool,
    pub fenced: bool,
    pub lease_owner: Option<String>,
    pub commit_version: u64,
    pub staleness_secs: u64,
}

/// What a readiness probe needs to know, read without waiting for the store: it shares the store's
/// latch and stamp, so that a fencing or a refresh shows on the next probe.
#[derive(Clone, Debug)]
pub struct Readiness {
    role: Role,
    fenced: Arc<AtomicBool>,
    /// When the handle last knew itself current; only a reader over a durable store can lag.
    last_verified: Option<Arc<AtomicU64>>,
}

/// What is needed to renew a writer lease in the background. It owns nothing: dropping it releases
/// nothing.
#[derive(Clone, Debug)]
pub struct LeaseRenewer {
    pub owner: String,
    /// The store's own latch: a lease that is lost in the background is recorded there.
    pub latch: Arc<AtomicBool>,
}

impl LeaseRenewer {
    /// The lease was lost: the store and its probes are told, through the latch that they share.
    pub fn lost(&self)
        ensures
            raised(*self.latch),
    {
        raise(&self.latch);
    }
}

/// The commit versions of a store.
#[derive(Clone, Debug)]
pub struct StoreVersions {
    /// The live one.
    pub commit_version: u64,
    pub oldest_readable: Option<u64>,
    /// The one that this handle is pinned to.
    pub pinned: Option<u64>,
    /// The recorded ones that can still be opened.
    pub readable: Vec<u64>,
}

/// What the handle is.
pub open spec fn role_of(s: Store) -> Role {
    let writer = s.config.open_mode == OpenMode::ReadWrite;
    if s.in_memory {
        Role::InMemory
    } else if s.config.cluster {
        if writer {
            Role::ClusterWriter
        } else {
            Role::ClusterReader
        }
    } else if writer {
        Role::Writer
    } else {
        Role::Reader
    }
}

/// The seconds from `then` to `now`.
pub open spec fn seconds_since(then: u64, now: u64) -> u64 {
    if now < then {
        0
    } else {
        ((now - then) / 1000) as u64
    }
}

fn seconds(then: u64, now: u64) -> (r: u64)
    ensures
        r == seconds_since(then, now),
{
    if now < then {
        0
    } else {
        (now - then) / 1000
    }
}

/// The versions of the entries that are not below the floor.
pub open spec fn at_or_above(h: Seq<Entry>, floor: Option<u64>) -> Seq<u64>
    decreases h.len(),
{
    if h.len() == 0 {
        Seq::empty()
    } else if floor matches Some(f) && h.last().version < f {
        at_or_above(h.drop_last(), floor)
    } else {
        at_or_above(h.drop_last(), floor).push(h.last().version)
    }
}

/// The readable versions of a record that is in order are in order themselves, and none is below
/// the floor, nor below the oldest on record.
proof fn readable_in_order(h: Seq<Entry>, floor: Option<u64>)
    requires
        in_version_order(views(h)),
    ensures
        forall|i: int, j: int|
            0 <= i < j < at_or_above(h, floor).len() ==> #[trigger] at_or_above(h, floor)[i]
                < #[trigger] at_or_above(h, floor)[j],
        forall|i: int|
            0 <= i < at_or_above(h, floor).len() ==> {
                &&& h.len() > 0
                &&& h[0].version <= #[trigger] at_or_above(h, floor)[i] <= h.last().version
                &&& floor matches Some(f) ==> f <= at_or_above(h, floor)[i]
            },
    decreases h.len(),
{
    if h.len() > 0 {
        let d = h.drop_last();
        let n = h.len() - 1;
        assert(views(d) =~= views(h).drop_last());
        readable_in_order(d, floor);
        assert(views(h)[n].version == h.last().version);
        assert(views(h)[0].version == h[0].version);
        if n > 0 {
            assert(views(h)[n - 1].version == d.last().version);
            assert(views(h)[n - 1].version < views(h)[n].version);
            assert(d[0] == h[0]);
        }
        let rest = at_or_above(d, floor);
        let all = at_or_above(h, floor);
        assert forall|i: int| 0 <= i < all.len() implies h[0].version <= #[trigger] all[i]
            <= h.last().version && (floor matches Some(f) ==> f <= all[i]) by {
            if i < rest.len() {
                assert(all[i] == rest[i]);
            }
        }
        assert forall|i: int, j: int| 0 <= i < j < all.len() implies #[trigger] all[i]
            < #[trigger] all[j] by {
            assert(all[i] == rest[i]);
            if j < rest.len() {
                assert(all[j] == rest[j]);
            }
        }
    }
}

/// Only readable versions are reported: recorded ones, none of them below the floor.
pub proof fn reported_versions_are_readable(h: Seq<Entry>, floor: Option<u64>, v: u64)
    requires
        at_or_above(h, floor).contains(v),
    ensures
        crate::disk::recorded(h, v) is Some,
        floor matches Some(f) ==> v >= f,
    decreases h.len(),
{
    let d = h.drop_last();
    let all = at_or_above(h, floor);
    let i = choose|i: int| 0 <= i < all.len() && all[i] == v;
    if floor matches Some(f) && h.last().version < f {
        reported_versions_are_readable(d, floor, v);
    } else if i < all.len() - 1 {
        assert(at_or_above(d, floor)[i] == v);
        reported_versions_are_readable(d, floor, v);
    }
}

impl Readiness {
    pub closed spec fn as_role(&self) -> Role {
        self.role
    }

    /// The latch that it reads.
    pub closed spec fn latch(&self) -> Arc<AtomicBool> {
        self.fenced
    }

    /// The stamp that it reads, where the handle can lag.
    pub closed spec fn stamp(&self) -> Option<Arc<AtomicU64>> {
        self.last_verified
    }

    /// What the handle is.
    pub fn role(&self) -> (r: Role)
        ensures
            r == self.as_role(),
    {
        self.role
    }

    /// Another writer has taken over, and this one can never write again: what a look at the shared
    /// latch finds at this moment.
    pub fn fenced(&self) -> (r: bool)
        ensures
            reads(*self.latch(), r),
    {
        is_raised(&self.fenced)
    }

    /// Seconds since the handle last knew itself current, by what a look at the shared stamp finds
    /// at this moment; a writer always does.
    pub fn staleness_secs(&self, now: u64) -> (r: u64)
        ensures
            self.stamp() is None ==> r == 0,
            self.stamp() matches Some(s) ==> exists|then: u64| #[trigger]
                says(*s, then) && r == seconds_since(then, now),
    {
        match &self.last_verified {
            None => 0,
            Some(stamp) => {
                let then: u64 = read(stamp);
                seconds(then, now)
            },
        }
    }
}

/// A probe stays the store's own: whatever is written, and whichever state is adopted, it looks at
/// the latch and the stamp that the store goes by, so that what [`Readiness::fenced`] finds is what a
/// status of the store would, and [`Store::fence`] and [`Store::refresh`] show on the next look.
pub proof fn a_probe_stays_the_stores_own(
    h: Readiness,
    s: Store,
    t: Store,
    pinned: Option<u64>,
    now: u64,
)
    requires
        h.latch() == s.latch,
        h.stamp() is Some ==> h.stamp() == Some(s.stamp),
        carries_on(s, pinned, now, t) || grew(s, t) || t == (Store {
            fenced: t.fenced,
            last_verified: t.last_verified,
            ..s
        }),
    ensures
        h.latch() == t.latch,
        h.stamp() is Some ==> h.stamp() == Some(t.stamp),
{
}

impl Store {
    fn role(&self) -> (r: Role)
        ensures
            r == role_of(*self),
    {
        if self.in_memory {
            Role::InMemory
        } else {
            match (self.config.cluster, self.config.open_mode) {
                (true, OpenMode::ReadWrite) => Role::ClusterWriter,
                (true, OpenMode::ReadOnly) => Role::ClusterReader,
                (false, OpenMode::ReadWrite) => Role::Writer,
                (false, OpenMode::ReadOnly) => Role::Reader,
            }
        }
    }

    /// Who this handle is and how current it is. A fenced writer holds nothing, and a writer is
    /// never stale: its state is the current one. The latch tells of a lease that was lost in the
    /// background, too.
    pub fn cluster_status(&self, now: u64) -> (r: ClusterStatus)
        ensures
            r.role == role_of(*self),
            r.cluster == self.config.cluster,
            self.fenced ==> r.fenced,
            !self.fenced ==> reads(*self.latch, r.fenced),
            r.holds_writer_handle == (self.holds_handle && !r.fenced),
            opt_view(r.lease_owner) == opt_view(self.lease_owner),
            r.commit_version == self.version,
            r.staleness_secs == if self.config.open_mode == OpenMode::ReadWrite {
                0
            } else {
                seconds_since(self.last_verified, now)
            },
    {
        let fenced = self.fenced || is_raised(&self.latch);
        let staleness_secs: u64 = match self.config.open_mode {
            OpenMode::ReadWrite => 0,
            OpenMode::ReadOnly => seconds(self.last_verified, now),
        };
        ClusterStatus {
            role: self.role(),
            cluster: self.config.cluster,
            holds_writer_handle: self.holds_handle && !fenced,
            fenced,
            lease_owner: dup_option(&self.lease_owner),
            commit_version: self.version,
            staleness_secs,
        }
    }

    /// A handle on what a readiness probe needs to know. It shares the store's latch and stamp. Only
    /// a reader over a durable store can lag.
    pub fn readiness(&self) -> (r: Readiness)
        ensures
            r.as_role() == role_of(*self),
            r.latch() == self.latch,
            r.stamp() == if self.config.open_mode == OpenMode::ReadOnly && !self.in_memory {
                Some(self.stamp)
            } else {
                None
            },
    {
        let last_verified: Option<Arc<AtomicU64>> = match self.config.open_mode {
            OpenMode::ReadWrite => None,
            OpenMode::ReadOnly => if self.in_memory {
                None
            } else {
                Some(self.stamp.clone())
            },
        };
        Readiness { role: self.role(), fenced: self.latch.clone(), last_verified }
    }

    /// What renews the writer lease, where this handle holds one.
    pub fn lease_renewer(&self) -> (r: Option<LeaseRenewer>)
        ensures
            match self.lease_owner {
                Some(o) => r matches Some(l) && l.owner@ == o@ && l.latch == self.latch,
                None => r is None,
            },
    {
        match &self.lease_owner {
            Some(o) => Some(LeaseRenewer { owner: o.dup(), latch: self.latch.clone() }),
            None => None,
        }
    }

    /// Another writer has taken over: this handle can never write again.
    pub fn fence(&mut self)
        ensures
            *final(self) == (Store { fenced: true, ..*old(self) }),
            raised(*final(self).latch),
            !final(self).writable(),
            old(self).wf() ==> final(self).wf(),
            old(self).current() ==> final(self).current(),
    {
        self.fenced = true;
        raise(&self.latch);
    }

    /// Take note of a lease that was lost in the background: where the latch was raised, the handle
    /// can never write again. A write goes by what the handle has noted, so this comes before it.
    pub fn heed(&mut self)
        ensures
            *final(self) == (Store { fenced: final(self).fenced, ..*old(self) }),
            old(self).fenced ==> final(self).fenced,
            !old(self).fenced ==> reads(*old(self).latch, final(self).fenced),
            old(self).wf() ==> final(self).wf(),
            old(self).current() ==> final(self).current(),
    {
        if !self.fenced {
            self.fenced = is_raised(&self.latch);
        }
    }

    /// The handle knows itself current as of `now`.
    pub(crate) fn verified_at(&mut self, now: u64)
        ensures
            *final(self) == (Store { last_verified: now, ..*old(self) }),
            noted(*final(self).stamp, now),
    {
        self.last_verified = now;
        note(&self.stamp, now);
    }

    /// The commit versions of the store: the live one, which a pinned handle lags behind, and the
    /// recorded ones that can still be opened.
    pub fn versions(&self, disk: &Disk) -> (r: StoreVersions)
        ensures
            r.pinned == self.pinned,
            self.in_memory ==> r.commit_version == self.version && r.oldest_readable is None
                && r.readable@.len() == 0,
            !self.in_memory ==> {
                &&& r.commit_version == match disk.manifest {
                    Some(m) => m.version,
                    None => self.version,
                }
                &&& r.readable@ == at_or_above(disk.history@, disk.floor)
                &&& r.oldest_readable == match disk.floor {
                    Some(f) => Some(f),
                    None => if disk.history@.len() > 0 {
                        Some(disk.history@[0].version)
                    } else {
                        None
                    },
                }
            },
            chronicled(*disk) ==> {
                &&& forall|i: int, j: int|
                    0 <= i < j < r.readable@.len() ==> #[trigger] r.readable@[i]
                        < #[trigger] r.readable@[j]
                &&& forall|i: int|
                    0 <= i < r.readable@.len() ==> (r.oldest_readable matches Some(o) && o
                        <= #[trigger] r.readable@[i])
            },
    {
        let mut readable: Vec<u64> = Vec::new();
        if self.in_memory {
            return StoreVersions {
                commit_version: self.version,
                oldest_readable: None,
                pinned: self.pinned,
                readable,
            };
        }
        let ghost h = disk.history@;
        let mut i: usize = 0;
        proof {
            assert(h.take(0) =~= Seq::empty());
        }
        while i < disk.history.len()
            invariant
                i <= h.len(),
                h == disk.history@,
                readable@ == at_or_above(h.take(i as int), disk.floor),
            decreases h.len() - i,
        {
            let v: u64 = disk.history[i].version;
            let open = match disk.floor {
                Some(f) => v >= f,
                None => true,
            };
            proof {
                assert(h.take(i + 1).drop_last() =~= h.take(i as int));
                assert(h.take(i + 1).last() == h[i as int]);
            }
            if open {
                readable.push(v);
            }
            i = i + 1;
        }
        proof {
            assert(h.take(i as int) =~= h);
            if chronicled(*disk) {
                readable_in_order(h, disk.floor);
            }
        }
        let oldest_readable: Option<u64> = match disk.floor {
            Some(f) => Some(f),
            None => if disk.history.len() > 0 {
                Some(disk.history[0].version)
            } else {
                None
            },
        };
        let commit_version: u64 = match &disk.manifest {
            Some(m) => m.version,
            None => self.version,
        };
        StoreVersions { commit_version, oldest_readable, pinned: self.pinned, readable }
    }

    /// Retune the nearest-neighbour index in place. It is never rebuilt, since the settings only
    /// matter to a query; where there is no index, none is built.
    pub fn retune_ann(&mut self, ann: AnnConfig)
        ensures
            old(self).wf() ==> final(self).wf(),
            old(self).current() ==> final(self).current(),
            *final(self) == (Store {
                config: Config { ann: Some(ann), ..old(self).config },
                ..*old(self)
            }),
    {
        self.config.ann = Some(ann);
    }

    /// Why a profile is not recorded: no later open could use it, or this handle may not write.
    pub open spec fn profile_refusal(&self, p: OpenProfile) -> Option<StoreError> {
        let m = merged(self.baseline, p);
        if !self.writable() {
            Some(self.write_refusal())
        } else if config_refusal(m) is Some {
            config_refusal(m)
        } else if !quant_fits(m) {
            Some(StoreError::BinaryNeedsCosine)
        } else if self.version >= u64::MAX - 1 {
            Some(StoreError::Full)
        } else {
            None
        }
    }

    /// Record the tuning that later opens start from. It is a commit point, so that readers that
    /// refresh adopt it.
    pub fn set_open_profile(&mut self, profile: &OpenProfile) -> (r: Result<(), StoreError>)
        ensures
            match old(self).profile_refusal(*profile) {
                Some(e) => r == Err::<(), StoreError>(e) && *final(self) == *old(self),
                None => r is Ok && *final(self) == (Store {
                    profile: *profile,
                    version: (old(self).version + 1) as u64,
                    ..*old(self)
                }),
            },
            old(self).wf() ==> final(self).wf(),
            old(self).current() ==> final(self).current(),
    {
        if let Err(e) = self.writer() {
            return Err(e);
        }
        let m = self.baseline.with_profile(profile);
        if let Err(e) = m.validate() {
            return Err(e);
        }
        if !m.quantization_fits() {
            return Err(StoreError::BinaryNeedsCosine);
        }
        if self.version >= u64::MAX - 1 {
            return Err(StoreError::Full);
        }
        self.profile = *profile;
        self.version = self.version + 1;
        Ok(())
    }

    /// Record that later opens start from the defaults.
    pub fn clear_open_profile(&mut self) -> (r: Result<(), StoreError>)
        ensures
            match old(self).profile_refusal(no_profile()) {
                Some(e) => r == Err::<(), StoreError>(e) && *final(self) == *old(self),
                None => r is Ok && *final(self) == (Store {
                    profile: no_profile(),
                    version: (old(self).version + 1) as u64,
                    ..*old(self)
                }),
            },
            old(self).wf() ==> final(self).wf(),
            old(self).current() ==> final(self).current(),
    {
        let none = OpenProfile::default();
        self.set_open_profile(&none)
    }
}

// ── Waiting for the writer handle ───────────────────────────────────────────

/// What came of a claim on the writer handle.
#[derive(Clone, Copy, Debug, PartialEq, Eq, Structural)]
pub enum Claim {
    Taken,
    /// A live holder has it.
    Held,
    /// The backend failed.
    Failed,
}

/// What to do after a claim.
#[derive(Clone, Copy, Debug, PartialEq, Eq, Structural)]
pub enum Wait {
    /// Go on with the handle.
    Proceed,
    /// Give up: the store is locked.
    Locked,
    /// Give up with the last failure of the backend.
    Fault,
    /// Claim again after so many nanoseconds.
    Retry(u64),
}

/// The waiting for a writer handle: how, since when, and whether the backend has failed.
#[derive(Clone, Copy, Debug, PartialEq, Eq, Structural)]
pub struct Standby {
    pub wait: LeaseWait,
    /// How long a silent holder keeps the handle, in milliseconds.
    pub lock_ttl: u64,
    /// When it began, on a monotonic clock in milliseconds.
    pub since: u64,
    pub failed: bool,
}

/// The shortest pause between two claims, in nanoseconds.
pub const SHORTEST_PAUSE: u64 = 250_000_000;

/// The longest pause between two claims, in nanoseconds.
pub const LONGEST_PAUSE: u64 = 2_000_000_000;

/// The pause between two claims: an eighth of the time after which a silent holder loses the
/// handle, but neither so short as to spin nor so long as to miss a release.
pub open spec fn pause(lock_ttl: u64) -> u64 {
    let eighth = lock_ttl * 125_000;
    if eighth < SHORTEST_PAUSE {
        SHORTEST_PAUSE
    } else if eighth > LONGEST_PAUSE {
        LONGEST_PAUSE
    } else {
        eighth as u64
    }
}

/// What to do after a claim. A claim that succeeds always ends the wait. A failing backend does
/// not, unless there is no waiting at all: only the deadline does, with the failure as its reason.
pub open spec fn after_claim(s: Standby, claim: Claim, now: u64, noise: u64) -> Wait {
    let failed = s.failed || claim == Claim::Failed;
    let retry = Wait::Retry((pause(s.lock_ttl) + noise % (pause(s.lock_ttl) / 4)) as u64);
    match claim {
        Claim::Taken => Wait::Proceed,
        _ => match s.wait {
            LeaseWait::Fail => if claim == Claim::Failed {
                Wait::Fault
            } else {
                Wait::Locked
            },
            LeaseWait::Timeout(limit) => if now >= s.since + limit {
                if failed {
                    Wait::Fault
                } else {
                    Wait::Locked
                }
            } else {
                retry
            },
            LeaseWait::Forever => retry,
        },
    }
}

/// Retries are spread: never sooner than the pause, and at most a quarter of it later.
pub proof fn retries_are_spread(s: Standby, claim: Claim, now: u64, noise: u64)
    ensures
        after_claim(s, claim, now, noise) matches Wait::Retry(n) ==> pause(s.lock_ttl) <= n
            && n * 4 < pause(s.lock_ttl) * 5,
{
    let p = pause(s.lock_ttl);
    assert(0 <= noise % (p / 4) < p / 4) by (nonlinear_arith)
        requires
            p / 4 > 0,
    ;
}

/// Whoever waits forever gives up for no failure.
pub proof fn waiting_forever_never_gives_up(s: Standby, claim: Claim, now: u64, noise: u64)
    requires
        s.wait == LeaseWait::Forever,
    ensures
        after_claim(s, claim, now, noise) is Proceed || after_claim(s, claim, now, noise) is Retry,
{
}

impl Standby {
    pub fn new(config: &Config, now: u64) -> (r: Standby)
        ensures
            r == (Standby {
                wait: config.lease_wait,
                lock_ttl: config.lock_ttl,
                since: now,
                failed: false,
            }),
    {
        Standby {
            wait: config.lease_wait,
            lock_ttl: config.lock_ttl,
            since: now,
            failed: false,
        }
    }

    /// Decide what to do after a claim. `noise` spreads the retries of those who wait.
    pub fn step(&mut self, claim: Claim, now: u64, noise: u64) -> (r: Wait)
        ensures
            r == after_claim(*old(self), claim, now, noise),
            *final(self) == (Standby {
                failed: old(self).failed || claim == Claim::Failed,
                ..*old(self)
            }),
    {
        let hit = match claim {
            Claim::Failed => true,
            _ => false,
        };
        let lost = self.failed || hit;
        self.failed = lost;
        if let Claim::Taken = claim {
            return Wait::Proceed;
        }
        let ttl: u64 = if self.lock_ttl > 16_000 {
            16_000
        } else {
            self.lock_ttl
        };
        let eighth: u64 = ttl * 125_000;
        let base: u64 = if eighth < SHORTEST_PAUSE {
            SHORTEST_PAUSE
        } else {
            eighth
        };
        let quarter: u64 = base / 4;
        let spread: u64 = noise % quarter;
        match self.wait {
            LeaseWait::Fail => if hit {
                Wait::Fault
            } else {
                Wait::Locked
            },
            LeaseWait::Timeout(limit) => {
                let over = now >= self.since && now - self.since >= limit;
                if over {
                    if lost {
                        Wait::Fault
                    } else {
                        Wait::Locked
                    }
                } else {
                    Wait::Retry(base + spread)
                }
            },
            LeaseWait::Forever => Wait::Retry(base + spread),
        }
    }
}

} // verus!
