//! Taking back what a write has changed, where it could not be made durable.

use vstd::prelude::*;

use crate::config::OpenProfile;
use crate::dict::{dup_all, views};
use crate::index::{replay, replay_ops};
use crate::kernel::{functional, Kernel};
use crate::model::Record;
use crate::quant::{fitted, quantize_from, quantized, Quant};
use crate::store::{Segment, Store};
use crate::write::upserted;

verus! {

/// What a store was at some moment, as far as a later write can change it: how long the rows and
/// the log were, and all else in full. The index is not kept: the log replays to it.
#[derive(Clone, Debug)]
pub struct Savepoint {
    rows: usize,
    ops: usize,
    segments: Vec<Segment>,
    next_segment: u64,
    version: u64,
    profile: OpenProfile,
    indexed: Vec<bool>,
    index_dirty: Vec<bool>,
    anchor: Option<u64>,
    /// The scale of an int8 copy, and how many rows it was fitted to.
    scale: Option<(u32, u64)>,
}

/// The scale of an int8 copy, and how many rows it was fitted to.
pub open spec fn scale_of(q: Option<Quant>) -> Option<(u32, u64)> {
    match q {
        Some(Quant::Int8 { scale, params_rows, .. }) => Some((scale, params_rows)),
        _ => None,
    }
}

impl Savepoint {
    /// It was taken of the store `s`.
    pub closed spec fn marks(&self, s: Store) -> bool {
        &&& self.rows == s.rows@.len()
        &&& self.ops == s.log@.len()
        &&& self.segments@ == s.segments@
        &&& self.next_segment == s.next_segment
        &&& self.version == s.version
        &&& self.profile == s.profile
        &&& self.indexed@ == s.indexed@
        &&& self.index_dirty@ == s.index_dirty@
        &&& self.anchor == s.anchor
        &&& self.scale == scale_of(s.quant)
    }
}

/// What writes, short of a compaction, made of the store `before`: the rows and the log have only
/// grown. The attempt to make them durable may have moved the anchor or fenced the handle.
pub open spec fn grew(before: Store, after: Store) -> bool {
    &&& after == (Store {
        rows: after.rows,
        segments: after.segments,
        next_segment: after.next_segment,
        version: after.version,
        profile: after.profile,
        log: after.log,
        index: after.index,
        quant: after.quant,
        indexed: after.indexed,
        index_dirty: after.index_dirty,
        anchor: after.anchor,
        fenced: after.fenced,
        ..before
    })
    &&& before.rows@.len() <= after.rows@.len()
    &&& after.rows@.take(before.rows@.len() as int) == before.rows@
    &&& before.log@.len() <= after.log@.len()
    &&& views(after.log@).take(before.log@.len() as int) == views(before.log@)
    &&& before.quant is Some <==> after.quant is Some
    &&& before.quant is Some ==> (before.quant->0 is Int8 <==> after.quant->0 is Int8)
}

/// An int8 copy holds the codes of the rows under its scale.
pub open spec fn coded<K: Kernel>(k: K, q: Option<Quant>, rows: Seq<Seq<u32>>) -> bool {
    q matches Some(Quant::Int8 { scale, vectors, .. }) ==> views(vectors@) == quantized(
        k,
        scale,
        rows,
        0,
    )
}

/// The store `after` is `before` again: the same rows, log, index, segments, version and settings,
/// and the same coarse copy. A handle that was fenced stays so.
pub open spec fn restored<K: Kernel>(k: K, before: Store, after: Store) -> bool {
    &&& after == (Store {
        rows: after.rows,
        segments: after.segments,
        log: after.log,
        index: after.index,
        quant: after.quant,
        indexed: after.indexed,
        index_dirty: after.index_dirty,
        fenced: after.fenced,
        ..before
    })
    &&& after.rows@ == before.rows@
    &&& after.segments@ == before.segments@
    &&& views(after.log@) == views(before.log@)
    &&& after.index@ == before.index@
    &&& after.indexed@ == before.indexed@
    &&& after.index_dirty@ == before.index_dirty@
    &&& scale_of(after.quant) == scale_of(before.quant)
    &&& coded(k, after.quant, views(after.rows@))
    &&& before.faithful() ==> after.faithful()
    &&& before.quant is Some <==> after.quant is Some
}

fn flags(v: &Vec<bool>) -> (out: Vec<bool>)
    ensures
        out@ == v@,
{
    let mut out: Vec<bool> = Vec::new();
    let mut i: usize = 0;
    while i < v.len()
        invariant
            i <= v@.len(),
            out@ == v@.take(i as int),
        decreases v@.len() - i,
    {
        out.push(v[i]);
        i = i + 1;
        proof {
            assert(out@ =~= v@.take(i as int));
        }
    }
    proof {
        assert(v@.take(i as int) =~= v@);
    }
    out
}

fn all_segments(v: &Vec<Segment>) -> (out: Vec<Segment>)
    ensures
        out@ == v@,
{
    let mut out: Vec<Segment> = Vec::new();
    let mut i: usize = 0;
    while i < v.len()
        invariant
            i <= v@.len(),
            out@ == v@.take(i as int),
        decreases v@.len() - i,
    {
        out.push(v[i]);
        i = i + 1;
        proof {
            assert(out@ =~= v@.take(i as int));
        }
    }
    proof {
        assert(v@.take(i as int) =~= v@);
    }
    out
}

impl Store {
    /// The index is what the log replays to over the rows.
    pub open spec fn replays(&self) -> bool {
        self.index@ == replay(views(self.log@), self.rows@.len() as u64)
    }

    /// Where the store stands, to come back to.
    pub fn savepoint(&self) -> (at: Savepoint)
        ensures
            at.marks(*self),
    {
        Savepoint {
            rows: self.rows.len(),
            ops: self.log.len(),
            segments: all_segments(&self.segments),
            next_segment: self.next_segment,
            version: self.version,
            profile: self.profile,
            indexed: flags(&self.indexed),
            index_dirty: flags(&self.index_dirty),
            anchor: self.anchor,
            scale: match &self.quant {
                Some(Quant::Int8 { scale, params_rows, .. }) => Some((*scale, *params_rows)),
                _ => None,
            },
        }
    }

    /// Take back every write since the savepoint: the rows and the log are cut to what they were,
    /// and the index is what the log then replays to.
    pub fn rollback<K: Kernel>(&mut self, at: Savepoint, k: &K)
        requires
            old(self).current(),
            functional(*k),
            exists|before: Store| #[trigger]
                at.marks(before) && before.wf() && before.current() && before.replays() && grew(
                    before,
                    *old(self),
                ),
        ensures
            final(self).wf(),
            final(self).current(),
            final(self).replays(),
            final(self).fenced == old(self).fenced,
            forall|before: Store| #[trigger]
                at.marks(before) && before.replays() && grew(before, *old(self)) ==> restored(
                    *k,
                    before,
                    *final(self),
                ),
    {
        let ghost full = *self;
        let ghost first = choose|before: Store| #[trigger]
            at.marks(before) && before.wf() && before.current() && before.replays() && grew(
                before,
                *old(self),
            );
        self.rows.truncate(at.rows);
        self.log.truncate(at.ops);
        let rows: u64 = self.rows.len() as u64;
        self.index = replay_ops(dup_all(&self.log), rows);
        self.segments = at.segments;
        self.next_segment = at.next_segment;
        self.version = at.version;
        self.profile = at.profile;
        self.indexed = at.indexed;
        self.index_dirty = at.index_dirty;
        self.anchor = at.anchor;
        let ghost cut = self.rows@;
        self.quant = match self.quant.take() {
            Some(Quant::Int8 { .. }) => match at.scale {
                Some((scale, params_rows)) => {
                    let mut vectors: Vec<Vec<i8>> = Vec::new();
                    quantize_from(&mut vectors, scale, &self.rows, 0, k);
                    proof {
                        let none: Seq<Vec<i8>> = Seq::empty();
                        assert(views(none) + quantized(*k, scale, views(cut), 0) =~= quantized(
                            *k,
                            scale,
                            views(cut),
                            0,
                        ));
                        assert forall|i: int| 0 <= i < cut.len() implies (
                        #[trigger] vectors@[i])@.len() == cut[i]@.len() by {
                            assert(vectors@[0 + i]@.len() == cut[0 + i]@.len());
                        }
                    }
                    Some(Quant::Int8 { scale, vectors, params_rows })
                },
                None => None,
            },
            Some(Quant::Binary { words, words_per_row }) => {
                let mut words = words;
                words.truncate(at.rows);
                Some(Quant::Binary { words, words_per_row })
            },
            None => None,
        };
        proof {
            assert(cut == full.rows@.take(at.rows as int));
            assert(views(self.log@) =~= views(full.log@).take(at.ops as int));
            assert(cut == first.rows@);
            assert(self.index@ == first.index@);
            assert forall|before: Store| #[trigger]
                at.marks(before) && before.replays() && grew(before, *old(self)) implies restored(
                *k,
                before,
                *self,
            ) by {
                assert(cut == before.rows@);
                assert(views(self.log@) == views(before.log@));
                assert(self.index@ == before.index@);
            }
        }
    }
}

/// A batch can be taken back.
pub proof fn a_batch_grows<K: Kernel>(
    k: K,
    before: Store,
    after: Store,
    c: Seq<char>,
    records: Seq<Record>,
)
    requires
        upserted(k, before, after, c, records),
    ensures
        grew(before, after),
{
    let n = before.log@.len() as int;
    assert(views(before.log@).len() == n);
    assert(views(after.log@).len() == after.log@.len());
    assert(views(after.log@).take(n) =~= views(before.log@));
}

/// So can whatever only adds to the log.
pub proof fn a_logged_change_grows(before: Store, after: Store)
    requires
        after.same_but_index(&before),
    ensures
        grew(before, after),
{
    assert(after.rows@.take(before.rows@.len() as int) =~= before.rows@);
}

/// A copy that was made in one go holds the codes of the rows under its scale.
pub proof fn a_fitted_copy_is_coded<K: Kernel>(k: K, q: Option<Quant>, rows: Seq<Seq<u32>>)
    requires
        fitted(k, q, rows),
    ensures
        coded(k, q, rows),
{
}

/// So does one that was brought up to later rows.
pub proof fn an_extended_copy_is_coded<K: Kernel>(
    k: K,
    before: Store,
    after: Store,
    c: Seq<char>,
    records: Seq<Record>,
)
    requires
        before.current(),
        upserted(k, before, after, c, records),
        coded(k, before.quant, views(before.rows@)),
    ensures
        coded(k, after.quant, views(after.rows@)),
{
    let n = before.rows@.len() as int;
    assert(views(after.rows@).take(n) =~= views(before.rows@)) by {
        assert forall|i: int| 0 <= i < n implies #[trigger] views(after.rows@).take(n)[i] == views(
            before.rows@,
        )[i] by {
            assert(after.rows@.take(n)[i] == after.rows@[i]);
        }
    }
    if let Some(Quant::Int8 { scale, vectors, .. }) = after.quant {
        let rows = views(after.rows@);
        assert forall|i: int| 0 <= i < rows.len() implies #[trigger] views(vectors@)[i]
            == quantized(k, scale, rows, 0)[i] by {
            if i < n {
                assert(rows[i] == rows.take(n)[i]);
            }
        }
        assert(views(vectors@) =~= quantized(k, scale, rows, 0));
    }
}

} // verus!
