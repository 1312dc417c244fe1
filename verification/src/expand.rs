//! Widening a result by the surrounding chunks of its own document.

use vstd::prelude::*;
use vstd::string::{StrSliceExecFns, StringExecFns};

use crate::dict::{ordered, views};
use crate::index::{Collection, CollsV, DocV};
use crate::model::{Expand, Hit, HitV, META_CHAR_START};
use crate::order::same;
use crate::read::attrs_at;
use crate::store::Store;
use crate::value::{Attrs, AttrsV, Value, ValueV};

verus! {

/// What stands between two pieces that do not join up.
pub const GAP: &'static str = "\n\n";

/// One chunk of a document: where it comes, what it says, and where in the source it starts.
#[derive(Clone, Copy, Debug, PartialEq, Eq)]
pub struct Piece<'a> {
    pub index: i64,
    pub text: &'a str,
    pub start: Option<i64>,
}

/// What a [`Piece`] holds.
pub ghost struct PieceV {
    pub index: i64,
    pub text: Seq<char>,
    pub start: Option<i64>,
}

impl<'a> View for Piece<'a> {
    type V = PieceV;

    open spec fn view(&self) -> PieceV {
        PieceV { index: self.index, text: self.text@, start: self.start }
    }
}

// ── Stitching ───────────────────────────────────────────────────────────────

/// Text so far, and how far into the source it reaches.
pub ghost struct Stitched {
    pub text: Seq<char>,
    pub reach: Option<int>,
}

/// The smaller of two numbers.
pub open spec fn least(a: int, b: int) -> int {
    if a < b {
        a
    } else {
        b
    }
}

/// What a piece adds, and whether it joins up with what is there: of a piece that overlaps, only
/// what is not yet written; of any other, all of it.
pub open spec fn added(reach: Option<int>, p: PieceV) -> (Seq<char>, bool) {
    match (reach, p.start) {
        (Some(end), Some(start)) => if start < end {
            (p.text.skip(least(end - start, p.text.len() as int)), true)
        } else {
            (p.text, start == end)
        },
        _ => (p.text, false),
    }
}

/// How far the source is written after a piece. It never goes back.
pub open spec fn reached(reach: Option<int>, p: PieceV) -> Option<int> {
    match p.start {
        Some(start) => {
            let end = start + p.text.len();
            match reach {
                Some(r) => if r < end {
                    Some(end)
                } else {
                    Some(r)
                },
                None => Some(end),
            }
        },
        None => reach,
    }
}

/// The text with one more piece.
pub open spec fn joined(s: Stitched, p: PieceV) -> Stitched {
    let (text, joins) = added(s.reach, p);
    Stitched {
        text: if text.len() == 0 {
            s.text
        } else if s.text.len() > 0 && !joins {
            s.text + GAP@ + text
        } else {
            s.text + text
        },
        reach: reached(s.reach, p),
    }
}

/// The pieces as one text.
pub open spec fn stitched(pieces: Seq<PieceV>) -> Stitched
    decreases pieces.len(),
{
    if pieces.len() == 0 {
        Stitched { text: Seq::empty(), reach: None }
    } else {
        joined(stitched(pieces.drop_last()), pieces.last())
    }
}

/// The text of a window, where there is any.
pub open spec fn stitch_of(pieces: Seq<PieceV>) -> Option<Seq<char>> {
    let text = stitched(pieces).text;
    if text.len() > 0 {
        Some(text)
    } else {
        None
    }
}

/// The piece is a slice of `source`, at the place that it says.
pub open spec fn slice_of(source: Seq<char>, p: PieceV) -> bool {
    &&& p.start is Some
    &&& 0 <= p.start->0
    &&& p.start->0 + p.text.len() <= source.len()
    &&& p.text == source.subrange(p.start->0 as int, p.start->0 + p.text.len())
}

/// No piece starts past the end of those before it.
pub open spec fn gapless(pieces: Seq<PieceV>) -> bool {
    forall|i: int|
        0 < i < pieces.len() ==> (#[trigger] pieces[i]).start->0 <= stitched(
            pieces.take(i),
        ).reach->0
}

/// Slices of one source that leave no gap give the source back, from where the first of them
/// starts to where the furthest of them ends: no seam repeats or loses anything, and a piece that
/// starts behind its predecessor writes nothing twice.
pub proof fn slices_restore_the_source(source: Seq<char>, pieces: Seq<PieceV>)
    requires
        pieces.len() > 0,
        forall|i: int| 0 <= i < pieces.len() ==> slice_of(source, #[trigger] pieces[i]),
        gapless(pieces),
    ensures
        stitched(pieces).reach is Some,
        pieces[0].start->0 <= stitched(pieces).reach->0 <= source.len(),
        stitched(pieces).text == source.subrange(
            pieces[0].start->0 as int,
            stitched(pieces).reach->0,
        ),
        forall|i: int|
            0 <= i < pieces.len() ==> (#[trigger] pieces[i]).start->0 + pieces[i].text.len()
                <= stitched(pieces).reach->0,
    decreases pieces.len(),
{
    let d = pieces.drop_last();
    let p = pieces.last();
    assert(slice_of(source, pieces[pieces.len() - 1]));
    if d.len() == 0 {
        assert(stitched(d) == Stitched { text: Seq::empty(), reach: None });
        assert(Seq::<char>::empty() + p.text =~= p.text);
        assert(stitched(pieces).text =~= p.text);
    } else {
        assert forall|i: int| 0 <= i < d.len() implies slice_of(source, #[trigger] d[i]) by {
            assert(d[i] == pieces[i]);
        }
        assert forall|i: int| 0 < i < d.len() implies (#[trigger] d[i]).start->0 <= stitched(
            d.take(i),
        ).reach->0 by {
            assert(d[i] == pieces[i]);
            assert(d.take(i) =~= pieces.take(i));
        }
        slices_restore_the_source(source, d);
        assert(pieces.take(pieces.len() - 1) =~= d);
        join_extends(source, stitched(d), p, pieces[0].start->0 as int);
        assert forall|i: int| 0 <= i < pieces.len() implies (#[trigger] pieces[i]).start->0
            + pieces[i].text.len() <= stitched(pieces).reach->0 by {
            if i < d.len() {
                assert(d[i] == pieces[i]);
            }
        }
    }
}

/// A slice that starts no further than the text reaches extends it along the source.
proof fn join_extends(source: Seq<char>, s: Stitched, p: PieceV, from: int)
    requires
        s.reach is Some,
        0 <= from <= s.reach->0 <= source.len(),
        s.text == source.subrange(from, s.reach->0),
        slice_of(source, p),
        p.start->0 <= s.reach->0,
    ensures
        joined(s, p).reach is Some,
        s.reach->0 <= joined(s, p).reach->0 <= source.len(),
        p.start->0 + p.text.len() <= joined(s, p).reach->0,
        joined(s, p).text == source.subrange(from, joined(s, p).reach->0),
{
    let r = s.reach->0;
    let start = p.start->0 as int;
    let end = start + p.text.len();
    let text = added(s.reach, p).0;
    assert(reached(s.reach, p) == Some(if r < end {
        end
    } else {
        r
    }));
    if end <= r {
        assert(text.len() == 0);
    } else {
        assert(text =~= source.subrange(r, end));
        assert(s.text + text =~= source.subrange(from, end));
    }
}

/// Join a window in source order, dropping the overlap that two adjacent chunks share.
pub fn stitch(window: &Vec<Piece>) -> (r: Option<String>)
    ensures
        r is Some <==> stitch_of(views(window@)) is Some,
        r matches Some(s) ==> stitch_of(views(window@)) == Some(s@),
{
    let ghost all = views(window@);
    let mut out: String = String::new();
    let mut reach: Option<i128> = None;
    let mut i: usize = 0;
    proof {
        assert(all.take(0) =~= Seq::empty());
    }
    while i < window.len()
        invariant
            i <= window@.len(),
            all == views(window@),
            out@ == stitched(all.take(i as int)).text,
            reach is Some <==> stitched(all.take(i as int)).reach is Some,
            reach matches Some(x) ==> stitched(all.take(i as int)).reach == Some(x as int),
            reach matches Some(x) ==> i64::MIN <= x <= 2 * 0x1_0000_0000_0000_0000,
        decreases window@.len() - i,
    {
        let p = &window[i];
        let ghost s = stitched(all.take(i as int));
        proof {
            assert(all.take(i + 1).drop_last() =~= all.take(i as int));
            assert(all.take(i + 1).last() == p@);
        }
        let len: usize = p.text.unicode_len();
        let mut skip: usize = 0;
        let mut joins = false;
        if let Some(end) = reach {
            if let Some(start) = p.start {
                if (start as i128) < end {
                    let over: i128 = end - start as i128;
                    skip = if over < len as i128 {
                        over as usize
                    } else {
                        len
                    };
                    joins = true;
                } else {
                    joins = start as i128 == end;
                }
            }
        }
        if let Some(start) = p.start {
            let end: i128 = start as i128 + len as i128;
            reach = match reach {
                Some(r) => if r < end {
                    Some(end)
                } else {
                    Some(r)
                },
                None => Some(end),
            };
        }
        let text = p.text.substring_char(skip, len);
        proof {
            assert(text@ =~= added(s.reach, p@).0);
        }
        if skip < len {
            if !out.as_str().is_empty() && !joins {
                out.append(GAP);
            }
            out.append(text);
        }
        i = i + 1;
    }
    proof {
        assert(all.take(i as int) =~= all);
    }
    if out.as_str().is_empty() {
        None
    } else {
        Some(out)
    }
}

// ── Chunks of a document ────────────────────────────────────────────────────

/// Where a chunk belongs, if the attributes say so.
pub open spec fn coords(opts: Expand, attrs: AttrsV) -> Option<(Seq<char>, i64)> {
    if attrs.contains_key(opts.parent_field@) && attrs.contains_key(opts.index_field@) {
        match (attrs[opts.parent_field@], attrs[opts.index_field@]) {
            (ValueV::Str(parent), ValueV::Int(index)) => Some((parent, index)),
            _ => None,
        }
    } else {
        None
    }
}

/// The piece that a record stands for, where it has coordinates and text.
pub open spec fn piece_in(opts: Expand, attrs: AttrsV) -> Option<PieceV> {
    if coords(opts, attrs) is Some && attrs.contains_key(opts.text_field@) {
        match attrs[opts.text_field@] {
            ValueV::Str(text) => Some(
                PieceV {
                    index: (coords(opts, attrs)->0).1,
                    text,
                    start: if attrs.contains_key(META_CHAR_START@) {
                        match attrs[META_CHAR_START@] {
                            ValueV::Int(c) => Some(c),
                            _ => None,
                        }
                    } else {
                        None
                    },
                },
            ),
            _ => None,
        }
    } else {
        None
    }
}

/// A piece put in its place by index; it replaces one of the same index.
pub open spec fn placed(pieces: Seq<PieceV>, p: PieceV) -> Seq<PieceV>
    decreases pieces.len(),
{
    if pieces.len() == 0 {
        seq![p]
    } else if pieces.last().index < p.index {
        pieces.push(p)
    } else if pieces.last().index == p.index {
        pieces.drop_last().push(p)
    } else {
        placed(pieces.drop_last(), p).push(pieces.last())
    }
}

/// The pieces of the document `parent`, by index.
pub open spec fn document(entries: Seq<(Seq<char>, DocV)>, opts: Expand, parent: Seq<char>) -> Seq<
    PieceV,
>
    decreases entries.len(),
{
    if entries.len() == 0 {
        Seq::empty()
    } else {
        let rest = document(entries.drop_last(), opts, parent);
        let attrs = entries.last().1.attrs;
        if piece_in(opts, attrs) is Some && (coords(opts, attrs)->0).0 == parent {
            placed(rest, piece_in(opts, attrs)->0)
        } else {
            rest
        }
    }
}

/// The pieces within `radius` of `index`.
pub open spec fn nearby(pieces: Seq<PieceV>, index: i64, radius: u32) -> Seq<PieceV>
    decreases pieces.len(),
{
    if pieces.len() == 0 {
        Seq::empty()
    } else {
        let rest = nearby(pieces.drop_last(), index, radius);
        if index - radius <= pieces.last().index <= index + radius {
            rest.push(pieces.last())
        } else {
            rest
        }
    }
}

/// A result with its context. Nothing else of it changes, and a record without coordinates, or
/// whose document has no text, is left alone.
pub open spec fn expanded(cols: CollsV, opts: Expand, h: HitV) -> HitV {
    match attrs_at(cols, h.collection, h.id) {
        Some(attrs) => match coords(opts, attrs) {
            Some((parent, index)) => {
                let pieces = document(ordered(cols[h.collection].docs), opts, parent);
                if pieces.len() == 0 {
                    h
                } else {
                    HitV { context: stitch_of(nearby(pieces, index, opts.radius)), ..h }
                }
            },
            None => h,
        },
        None => h,
    }
}

/// The results with their contexts.
pub open spec fn expanded_all(cols: CollsV, opts: Option<Expand>, hits: Seq<HitV>) -> Seq<HitV> {
    match opts {
        Some(e) => hits.map_values(|h: HitV| expanded(cols, e, h)),
        None => hits,
    }
}

/// Expansion changes payload only: the same results stand in the same places, with the same
/// scores, attributes and annotations.
pub proof fn expansion_keeps_the_ranking(cols: CollsV, opts: Option<Expand>, hits: Seq<HitV>)
    ensures
        expanded_all(cols, opts, hits).len() == hits.len(),
        forall|i: int|
            0 <= i < hits.len() ==> #[trigger] expanded_all(cols, opts, hits)[i] == (HitV {
                context: expanded_all(cols, opts, hits)[i].context,
                ..hits[i]
            }),
{
}

/// The index is strictly ascending.
pub open spec fn by_index(pieces: Seq<PieceV>) -> bool {
    forall|i: int, j: int|
        0 <= i < j < pieces.len() ==> (#[trigger] pieces[i]).index < (#[trigger] pieces[j]).index
}

proof fn placed_is_ordered(pieces: Seq<PieceV>, p: PieceV)
    requires
        by_index(pieces),
    ensures
        by_index(placed(pieces, p)),
        placed(pieces, p).len() > 0,
        pieces.len() > 0 ==> placed(pieces, p).last().index == if pieces.last().index < p.index {
            p.index
        } else {
            pieces.last().index
        },
        pieces.len() == 0 ==> placed(pieces, p).last() == p,
        forall|q: PieceV| #[trigger]
            placed(pieces, p).contains(q) ==> q == p || pieces.contains(q),
    decreases pieces.len(),
{
    if pieces.len() > 0 {
        let d = pieces.drop_last();
        placed_is_ordered(d, p);
        let all = placed(pieces, p);
        assert forall|q: PieceV| #[trigger] all.contains(q) implies q == p || pieces.contains(q) by {
            let i = choose|i: int| 0 <= i < all.len() && all[i] == q;
            if pieces.last().index < p.index {
                if i < pieces.len() {
                    assert(pieces[i] == q);
                }
            } else if pieces.last().index == p.index {
                if i < d.len() {
                    assert(pieces[i] == q);
                }
            } else if i < all.len() - 1 {
                assert(placed(d, p)[i] == q);
                assert(placed(d, p).contains(q));
                if d.contains(q) {
                    let j = choose|j: int| 0 <= j < d.len() && d[j] == q;
                    assert(pieces[j] == q);
                }
            } else {
                assert(pieces[pieces.len() - 1] == q);
            }
        }
        if pieces.last().index > p.index {
            let below = placed(d, p);
            assert(below.last().index < pieces.last().index) by {
                if d.len() > 0 {
                    assert(pieces[d.len() - 1].index < pieces[pieces.len() - 1].index);
                }
            }
            assert forall|i: int, j: int| 0 <= i < j < all.len() implies (#[trigger] all[i]).index
                < (#[trigger] all[j]).index by {
                if j == all.len() - 1 {
                    if i < below.len() - 1 {
                        assert(below[i].index < below[below.len() - 1].index);
                    }
                } else {
                    assert(below[i].index < below[j].index);
                }
            }
        } else if pieces.last().index == p.index {
            assert forall|i: int, j: int| 0 <= i < j < all.len() implies (#[trigger] all[i]).index
                < (#[trigger] all[j]).index by {
                assert(pieces[i].index < pieces[j].index);
            }
        } else {
            assert forall|i: int, j: int| 0 <= i < j < all.len() implies (#[trigger] all[i]).index
                < (#[trigger] all[j]).index by {
                if j == all.len() - 1 {
                    if i < pieces.len() - 1 {
                        assert(pieces[i].index < pieces[pieces.len() - 1].index);
                    }
                } else {
                    assert(pieces[i].index < pieces[j].index);
                }
            }
        }
    }
}

/// The pieces of a document come in ascending order of their index, and each is the piece of one
/// of its own records: an expansion never crosses into another document.
pub proof fn a_document_is_its_own(
    entries: Seq<(Seq<char>, DocV)>,
    opts: Expand,
    parent: Seq<char>,
)
    ensures
        by_index(document(entries, opts, parent)),
        forall|i: int|
            0 <= i < document(entries, opts, parent).len() ==> exists|e: int|
                0 <= e < entries.len() && piece_in(opts, (#[trigger] entries[e]).1.attrs) == Some(
                    #[trigger] document(entries, opts, parent)[i],
                ) && (coords(opts, entries[e].1.attrs)->0).0 == parent,
    decreases entries.len(),
{
    if entries.len() > 0 {
        let d = entries.drop_last();
        a_document_is_its_own(d, opts, parent);
        let rest = document(d, opts, parent);
        let all = document(entries, opts, parent);
        let attrs = entries.last().1.attrs;
        let takes = piece_in(opts, attrs) is Some && (coords(opts, attrs)->0).0 == parent;
        if takes {
            placed_is_ordered(rest, piece_in(opts, attrs)->0);
        }
        assert forall|i: int| 0 <= i < all.len() implies exists|e: int|
            0 <= e < entries.len() && piece_in(opts, (#[trigger] entries[e]).1.attrs) == Some(
                #[trigger] all[i],
            ) && (coords(opts, entries[e].1.attrs)->0).0 == parent by {
            assert(all.contains(all[i]));
            if takes && all[i] == piece_in(opts, attrs)->0 {
                assert(entries[entries.len() - 1].1.attrs == attrs);
            } else {
                assert(rest.contains(all[i]));
                let j = choose|j: int| 0 <= j < rest.len() && rest[j] == all[i];
                let e = choose|e: int|
                    0 <= e < d.len() && piece_in(opts, (#[trigger] d[e]).1.attrs) == Some(rest[j])
                        && (coords(opts, d[e].1.attrs)->0).0 == parent;
                assert(entries[e] == d[e]);
            }
        }
    }
}

fn str_at<'a>(attrs: &'a Attrs, field: &str) -> (r: Option<&'a str>)
    ensures
        r is Some <==> attrs@.contains_key(field@) && attrs@[field@] is Str,
        r matches Some(s) ==> attrs@[field@] == ValueV::Str(s@),
{
    match attrs.get(field) {
        Some(Value::Str(s)) => Some(s.as_str()),
        _ => None,
    }
}

fn int_at(attrs: &Attrs, field: &str) -> (r: Option<i64>)
    ensures
        r is Some <==> attrs@.contains_key(field@) && attrs@[field@] is Int,
        r matches Some(n) ==> attrs@[field@] == ValueV::Int(n),
{
    match attrs.get(field) {
        Some(Value::Int(n)) => Some(*n),
        _ => None,
    }
}

fn piece_at<'a>(attrs: &'a Attrs, opts: &Expand, parent: &str) -> (r: Option<Piece<'a>>)
    ensures
        r is Some <==> piece_in(*opts, attrs@) is Some && (coords(*opts, attrs@)->0).0 == parent@,
        r matches Some(p) ==> piece_in(*opts, attrs@) == Some(p@),
{
    match (
        str_at(attrs, opts.parent_field.as_str()),
        int_at(attrs, opts.index_field.as_str()),
        str_at(attrs, opts.text_field.as_str()),
    ) {
        (Some(p), Some(index), Some(text)) => if same(p, parent) {
            Some(Piece { index, text, start: int_at(attrs, META_CHAR_START) })
        } else {
            None
        },
        _ => None,
    }
}

/// Put a piece in its place.
fn place<'a>(pieces: &mut Vec<Piece<'a>>, p: Piece<'a>)
    ensures
        views(final(pieces)@) == placed(views(old(pieces)@), p@),
{
    let ghost start = pieces@;
    let ghost want = placed(views(start), p@);
    let mut at: usize = pieces.len();
    proof {
        assert(views(start).take(at as int) =~= views(start));
        assert(views(start).skip(at as int) =~= Seq::empty());
        assert(want =~= placed(views(start).take(at as int), p@) + views(start).skip(at as int));
    }
    while at > 0 && pieces[at - 1].index > p.index
        invariant
            at <= pieces@.len(),
            pieces@ == start,
            want == placed(views(start).take(at as int), p@) + views(start).skip(at as int),
        decreases at,
    {
        let ghost now = views(start).take(at as int);
        proof {
            assert(now.drop_last() =~= views(start).take(at - 1));
            assert(now.last() == start[at - 1]@);
            assert(want =~= placed(now.drop_last(), p@) + views(start).skip(at - 1));
        }
        at = at - 1;
    }
    let ghost now = views(start).take(at as int);
    if at > 0 && pieces[at - 1].index == p.index {
        proof {
            assert(now.last() == start[at - 1]@);
        }
        pieces.set(at - 1, p);
        proof {
            assert(views(pieces@) =~= now.drop_last().push(p@) + views(start).skip(at as int));
        }
    } else {
        proof {
            if at > 0 {
                assert(now.last() == start[at - 1]@);
            }
        }
        pieces.insert(at, p);
        proof {
            assert(placed(now, p@) =~= now.push(p@));
            assert(views(pieces@) =~= now.push(p@) + views(start).skip(at as int));
        }
    }
}

fn document_of<'a>(col: &'a Collection, opts: &Expand, parent: &str) -> (r: Vec<Piece<'a>>)
    ensures
        views(r@) == document(ordered(col@.docs), *opts, parent@),
{
    let mut out: Vec<Piece<'a>> = Vec::new();
    let ghost e = ordered(col@.docs);
    let n: usize = col.docs.len();
    let mut i: usize = 0;
    proof {
        assert(e.take(0) =~= Seq::empty());
        assert(views(out@) =~= Seq::empty());
    }
    while i < n
        invariant
            i <= n,
            n == e.len(),
            e == ordered(col@.docs),
            e == col.docs.entries(),
            views(out@) == document(e.take(i as int), *opts, parent@),
        decreases n - i,
    {
        let doc = col.docs.value_at(i);
        proof {
            assert(e.take(i + 1).drop_last() =~= e.take(i as int));
            assert(e.take(i + 1).last() == e[i as int]);
        }
        if let Some(p) = piece_at(&doc.attrs, opts, parent) {
            place(&mut out, p);
        }
        i = i + 1;
    }
    proof {
        assert(e.take(i as int) =~= e);
    }
    out
}

fn near<'a>(pieces: &Vec<Piece<'a>>, index: i64, radius: u32) -> (out: Vec<Piece<'a>>)
    ensures
        views(out@) == nearby(views(pieces@), index, radius),
{
    let ghost all = views(pieces@);
    let lo: i128 = index as i128 - radius as i128;
    let hi: i128 = index as i128 + radius as i128;
    let mut out: Vec<Piece<'a>> = Vec::new();
    let mut i: usize = 0;
    proof {
        assert(all.take(0) =~= Seq::empty());
        assert(views(out@) =~= Seq::empty());
    }
    while i < pieces.len()
        invariant
            i <= pieces@.len(),
            all == views(pieces@),
            lo == index - radius,
            hi == index + radius,
            views(out@) == nearby(all.take(i as int), index, radius),
        decreases pieces@.len() - i,
    {
        let p = pieces[i];
        let ghost before = views(out@);
        proof {
            assert(all.take(i + 1).drop_last() =~= all.take(i as int));
            assert(all.take(i + 1).last() == p@);
        }
        if lo <= p.index as i128 && p.index as i128 <= hi {
            out.push(p);
            proof {
                assert(views(out@) =~= before.push(p@));
            }
        }
        i = i + 1;
    }
    proof {
        assert(all.take(i as int) =~= all);
    }
    out
}

impl Store {
    /// The context of one result: none in the outer option where it is left alone.
    fn context_of(&self, hit: &Hit, opts: &Expand) -> (r: Option<Option<String>>)
        ensures
            r is None ==> expanded(self.index@.collections, *opts, hit@) == hit@,
            r matches Some(c) ==> expanded(self.index@.collections, *opts, hit@) == (HitV {
                context: crate::dict::opt_view(c),
                ..hit@
            }),
    {
        let col = match self.index.collections.get(hit.collection.as_str()) {
            Some(col) => col,
            None => return None,
        };
        let attrs = match col.docs.get(hit.id.as_str()) {
            Some(doc) => &doc.attrs,
            None => return None,
        };
        match (
            str_at(attrs, opts.parent_field.as_str()),
            int_at(attrs, opts.index_field.as_str()),
        ) {
            (Some(parent), Some(index)) => {
                let pieces = document_of(col, opts, parent);
                if pieces.len() == 0 {
                    None
                } else {
                    Some(stitch(&near(&pieces, index, opts.radius)))
                }
            },
            _ => None,
        }
    }

    /// Attach its context to every result that carries chunk coordinates. Coordinates and text
    /// are read from the stored record, so a projection does not change them.
    pub fn expand_hits(&self, hits: &mut Vec<Hit>, opts: &Expand)
        ensures
            views(final(hits)@) == expanded_all(
                self.index@.collections,
                Some(*opts),
                views(old(hits)@),
            ),
    {
        let ghost cols = self.index@.collections;
        let ghost all = views(hits@);
        let mut i: usize = 0;
        while i < hits.len()
            invariant
                i <= hits@.len(),
                hits@.len() == all.len(),
                cols == self.index@.collections,
                forall|j: int|
                    0 <= j < i ==> (#[trigger] hits@[j])@ == expanded(cols, *opts, all[j]),
                forall|j: int| i <= j < all.len() ==> (#[trigger] hits@[j])@ == all[j],
            decreases hits@.len() - i,
        {
            let ghost before = hits@;
            if let Some(context) = self.context_of(&hits[i], opts) {
                hits[i].context = context;
                proof {
                    assert(hits@ =~= before.update(i as int, hits@[i as int]));
                }
            }
            i = i + 1;
        }
        proof {
            assert(views(hits@) =~= expanded_all(cols, Some(*opts), all));
        }
    }
}

} // verus!
