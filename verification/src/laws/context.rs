//! Results widened by the chunks around them.

use vstd::prelude::*;

use crate::expand::{
    by_index, coords, document, expanded, nearby, piece_in, placed, stitch_of, stitched, PieceV,
};
use crate::index::{CollsV, DocV};
use crate::model::{Expand, HitV};
use crate::value::{AttrsV, ValueV};

verus! {

/// A chunk joins the text so far without what the text already reaches over, directly where it
/// starts within reach, and behind a blank line where it starts further on or nobody knows where.
pub proof fn chunks_join_at_their_seams(pieces: Seq<PieceV>, p: PieceV)
    ensures
        stitched(Seq::<PieceV>::empty()).text.len() == 0,
        stitched(Seq::<PieceV>::empty()).reach is None,
        ({
            let so_far = stitched(pieces);
            let next = stitched(pieces.push(p));
            let known = p.start is Some && so_far.reach is Some;
            let reach = so_far.reach->0;
            let start = p.start->0 as int;
            &&& so_far.text.len() == 0 && !known ==> next.text == p.text
            &&& so_far.text.len() > 0 && p.text.len() > 0 && !known ==> next.text == so_far.text
                + seq!['\n', '\n'] + p.text
            &&& so_far.text.len() > 0 && p.text.len() > 0 && known && start > reach ==> next.text
                == so_far.text + seq!['\n', '\n'] + p.text
            &&& known && start == reach ==> next.text == so_far.text + p.text
            &&& known && start < reach && reach - start < p.text.len() ==> next.text == so_far.text
                + p.text.skip(reach - start)
            &&& known && start < reach && reach - start >= p.text.len() ==> next.text
                == so_far.text
            &&& p.text.len() == 0 ==> next.text == so_far.text
            &&& p.start is None ==> next.reach == so_far.reach
            &&& p.start is Some && so_far.reach is None ==> next.reach == Some(
                start + p.text.len(),
            )
            &&& known && start + p.text.len() > reach ==> next.reach == Some(start + p.text.len())
            &&& known && start + p.text.len() <= reach ==> next.reach == so_far.reach
        }),
{
    reveal_strlit("\n\n");
    assert(pieces.push(p).drop_last() =~= pieces);
    assert(crate::expand::GAP@ =~= seq!['\n', '\n']);
    let so_far = stitched(pieces);
    let none = Seq::<char>::empty();
    assert(so_far.text + none =~= so_far.text);
    assert(none + p.text =~= p.text);
    if so_far.text.len() == 0 {
        assert(so_far.text =~= none);
    }
    if p.text.len() == 0 {
        assert(p.text =~= none);
    }
    if p.start is Some && so_far.reach is Some {
        let start = p.start->0 as int;
        let reach = so_far.reach->0;
        if start < reach && reach - start >= p.text.len() {
            assert(p.text.skip(p.text.len() as int) =~= none);
        }
    }
}

/// An empty text is no context.
pub proof fn a_context_is_never_empty(pieces: Seq<PieceV>)
    ensures
        stitch_of(pieces) is None <==> stitched(pieces).text.len() == 0,
        stitch_of(pieces) matches Some(t) ==> t == stitched(pieces).text,
{
}

/// The chunks around one are those of the document whose index is at most the radius away, in
/// their order.
pub proof fn the_chunks_around_one(pieces: Seq<PieceV>, index: i64, radius: u32, q: PieceV)
    ensures
        nearby(pieces, index, radius).contains(q) <==> pieces.contains(q) && -radius <= q.index
            - index <= radius,
        by_index(pieces) ==> by_index(nearby(pieces, index, radius)),
    decreases pieces.len(),
{
    if pieces.len() > 0 {
        let d = pieces.drop_last();
        let last = pieces.last();
        the_chunks_around_one(d, index, radius, q);
        let rest = nearby(d, index, radius);
        let all = nearby(pieces, index, radius);
        assert(pieces[pieces.len() - 1] == last);
        assert forall|i: int| 0 <= i < d.len() implies #[trigger] pieces[i] == d[i] by {}
        if d.contains(q) {
            let i = choose|i: int| 0 <= i < d.len() && d[i] == q;
            assert(pieces[i] == q);
        }
        if pieces.contains(q) && q != last {
            let i = choose|i: int| 0 <= i < pieces.len() && pieces[i] == q;
            assert(d[i] == q);
        }
        if rest.contains(q) {
            let i = choose|i: int| 0 <= i < rest.len() && rest[i] == q;
            assert(all[i] == q);
        }
        if all.contains(q) && q != last {
            let i = choose|i: int| 0 <= i < all.len() && all[i] == q;
            assert(rest[i] == q);
        }
        if all.len() > rest.len() {
            assert(all[all.len() - 1] == last);
        }
        if by_index(pieces) {
            assert(by_index(d));
            assert forall|i: int, j: int| 0 <= i < j < all.len() implies (#[trigger] all[i]).index
                < (#[trigger] all[j]).index by {
                if j < rest.len() {
                    assert(rest[i].index < rest[j].index);
                } else {
                    assert(all[i] == rest[i]);
                    the_chunks_around_one(d, index, radius, rest[i]);
                    assert(rest.contains(rest[i]));
                    let m = choose|m: int| 0 <= m < d.len() && d[m] == rest[i];
                    assert(pieces[m] == rest[i]);
                }
            }
        }
    }
}

/// A record is a chunk where it names its document, its index in it and its text, under the
/// configured fields; where it starts it may say.
pub proof fn what_makes_a_chunk(opts: Expand, attrs: AttrsV)
    ensures
        coords(opts, attrs) is Some <==> attrs.contains_key(opts.parent_field@)
            && attrs.contains_key(opts.index_field@) && attrs[opts.parent_field@] is Str
            && attrs[opts.index_field@] is Int,
        coords(opts, attrs) matches Some(at) ==> attrs[opts.parent_field@] == ValueV::Str(at.0)
            && attrs[opts.index_field@] == ValueV::Int(at.1),
        piece_in(opts, attrs) is Some <==> coords(opts, attrs) is Some && attrs.contains_key(
            opts.text_field@,
        ) && attrs[opts.text_field@] is Str,
        piece_in(opts, attrs) matches Some(p) ==> {
            &&& attrs[opts.index_field@] == ValueV::Int(p.index)
            &&& attrs[opts.text_field@] == ValueV::Str(p.text)
            &&& p.start matches Some(at) ==> attrs.contains_key("nidus.char_start"@)
                && attrs["nidus.char_start"@] == ValueV::Int(at)
            &&& p.start is None ==> !(attrs.contains_key("nidus.char_start"@)
                && attrs["nidus.char_start"@] is Int)
        },
{
}

proof fn a_placed_chunk_is_there(pieces: Seq<PieceV>, p: PieceV, i: int)
    requires
        by_index(pieces),
        0 <= i < pieces.len(),
    ensures
        placed(pieces, p).contains(p),
        pieces[i].index != p.index ==> placed(pieces, p).contains(pieces[i]),
    decreases pieces.len(),
{
    let all = placed(pieces, p);
    let d = pieces.drop_last();
    let n = pieces.len() - 1;
    assert(pieces[n] == pieces.last());
    if pieces.last().index < p.index {
        assert(all[pieces.len() as int] == p);
        assert(all[i] == pieces[i]);
    } else if pieces.last().index == p.index {
        assert(all[n] == p);
        if i < n {
            assert(all[i] == d[i]);
        }
    } else {
        let rest = placed(d, p);
        if d.len() == 0 {
            assert(rest =~= seq![p]);
            assert(rest[0] == p);
        } else {
            a_placed_chunk_is_there(d, p, if i < n {
                i
            } else {
                0
            });
        }
        let m = choose|m: int| 0 <= m < rest.len() && rest[m] == p;
        assert(all[m] == p);
        if i < n {
            assert(d[i] == pieces[i]);
            if pieces[i].index != p.index {
                let m = choose|m: int| 0 <= m < rest.len() && rest[m] == d[i];
                assert(all[m] == pieces[i]);
            }
        } else {
            assert(all[all.len() - 1] == pieces.last());
        }
    }
}

/// Every chunk of a document is in it, the last of those that claim one index.
pub proof fn a_document_has_all_its_chunks(
    entries: Seq<(Seq<char>, DocV)>,
    opts: Expand,
    parent: Seq<char>,
    e: int,
)
    requires
        0 <= e < entries.len(),
        piece_in(opts, entries[e].1.attrs) is Some,
        (coords(opts, entries[e].1.attrs)->0).0 == parent,
        forall|f: int|
            e < f < entries.len() && piece_in(opts, (#[trigger] entries[f]).1.attrs) is Some && (
            coords(opts, entries[f].1.attrs)->0).0 == parent ==> piece_in(
                opts,
                entries[f].1.attrs,
            )->0.index != piece_in(opts, entries[e].1.attrs)->0.index,
    ensures
        document(entries, opts, parent).contains(piece_in(opts, entries[e].1.attrs)->0),
    decreases entries.len(),
{
    let d = entries.drop_last();
    let n = entries.len() - 1;
    let p = piece_in(opts, entries[e].1.attrs)->0;
    crate::expand::a_document_is_its_own(d, opts, parent);
    let rest = document(d, opts, parent);
    assert(entries[n] == entries.last());
    if e < n {
        assert(d[e] == entries[e]);
        assert forall|f: int|
            e < f < d.len() && piece_in(opts, (#[trigger] d[f]).1.attrs) is Some && (coords(
                opts,
                d[f].1.attrs,
            )->0).0 == parent implies piece_in(opts, d[f].1.attrs)->0.index != piece_in(
            opts,
            d[e].1.attrs,
        )->0.index by {
            assert(entries[f] == d[f]);
        }
        a_document_has_all_its_chunks(d, opts, parent, e);
        let m = choose|m: int| 0 <= m < rest.len() && rest[m] == p;
        let last = entries[n].1.attrs;
        if piece_in(opts, last) is Some && (coords(opts, last)->0).0 == parent {
            a_placed_chunk_is_there(rest, piece_in(opts, last)->0, m);
        }
    } else if rest.len() > 0 {
        a_placed_chunk_is_there(rest, p, 0);
    } else {
        assert(placed(rest, p) =~= seq![p]);
        assert(placed(rest, p)[0] == p);
    }
}

/// What a result is widened to: the chunks of its own document around its own index, stitched
/// together; a record that is gone or no part of a document is left as it is.
pub proof fn what_a_result_is_widened_to(cols: CollsV, opts: Expand, h: HitV)
    ensures
        ({
            let out = expanded(cols, opts, h);
            let there = cols.contains_key(h.collection) && cols[h.collection].docs.contains_key(
                h.id,
            );
            let attrs = cols[h.collection].docs[h.id].attrs;
            &&& out == (HitV { context: out.context, ..h })
            &&& !there || coords(opts, attrs) is None ==> out == h
            &&& there && coords(opts, attrs) is Some ==> {
                let at = coords(opts, attrs)->0;
                let pieces = document(
                    crate::dict::ordered(cols[h.collection].docs),
                    opts,
                    at.0,
                );
                &&& pieces.len() > 0 ==> out.context == stitch_of(
                    nearby(pieces, at.1, opts.radius),
                )
                &&& pieces.len() == 0 ==> out == h
            }
        }),
{
}

} // verus!
