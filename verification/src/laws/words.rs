//! Words of a text, and the words that are suggested.

use vstd::prelude::*;

use crate::lexicon::{complete_of, edits_of, holding_of, near_of, split_of, Lexicon};
use crate::store::Store;
use crate::suggest::{
    at_no_distance, completions, counted_words, counts, df_of, merged_with, RowV,
};
use crate::text::declares;
use crate::token::{cut, folded, has_words, in_word, words};
use crate::value::{passes, Filter};

verus! {

/// Which characters make up words, and how they are folded: digits, letters and everything past
/// ASCII do, and capital ASCII letters are made small.
pub proof fn what_words_are_made_of(c: char)
    ensures
        in_word(c) <==> 0x30 <= c as u32 <= 0x39 || 0x41 <= c as u32 <= 0x5a || 0x61 <= c as u32
            <= 0x7a || c as u32 > 0x7f,
        0x41 <= c as u32 <= 0x5a ==> folded(c) as u32 == c as u32 + 32,
        !(0x41 <= c as u32 <= 0x5a) ==> folded(c) == c,
        in_word(c) ==> in_word(folded(c)),
        folded(folded(c)) == folded(c),
{
}

/// A run of word characters is one word, folded; an empty text has none.
pub proof fn a_run_of_word_characters_is_one_word(text: Seq<char>)
    requires
        forall|i: int| 0 <= i < text.len() ==> in_word(#[trigger] text[i]),
    ensures
        text.len() > 0 ==> words(text) == seq![text.map_values(|c: char| folded(c))],
        text.len() == 0 ==> words(text).len() == 0,
{
    a_run_is_not_cut(text);
    if text.len() > 0 {
        assert(words(text) =~= seq![text.map_values(|c: char| folded(c))]);
    }
}

proof fn a_run_is_not_cut(text: Seq<char>)
    requires
        forall|i: int| 0 <= i < text.len() ==> in_word(#[trigger] text[i]),
    ensures
        cut(text).0.len() == 0,
        cut(text).1 == text.map_values(|c: char| folded(c)),
    decreases text.len(),
{
    let f = |c: char| folded(c);
    if text.len() > 0 {
        let d = text.drop_last();
        assert forall|i: int| 0 <= i < d.len() implies in_word(#[trigger] d[i]) by {
            assert(d[i] == text[i]);
        }
        a_run_is_not_cut(d);
        assert(text[text.len() - 1] == text.last());
        assert(text.map_values(f) =~= d.map_values(f).push(folded(text.last())));
    } else {
        assert(text.map_values(f) =~= Seq::<char>::empty());
    }
}

/// A character that no word has parts the words before it from those behind it.
pub proof fn other_characters_part_words(a: Seq<char>, c: char, b: Seq<char>)
    requires
        !in_word(c),
    ensures
        words(a.push(c) + b) == words(a) + words(b),
{
    let head = a.push(c);
    assert(head.drop_last() =~= a);
    assert(cut(head).0 == words(a) && cut(head).1.len() == 0);
    cut_carries_on(head, b);
    assert(words(a) + words(b) =~= words(head + b));
}

proof fn cut_carries_on(a: Seq<char>, b: Seq<char>)
    requires
        cut(a).1.len() == 0,
    ensures
        cut(a + b).0 == cut(a).0 + cut(b).0,
        cut(a + b).1 == cut(b).1,
    decreases b.len(),
{
    if b.len() == 0 {
        assert(a + b =~= a);
        assert(cut(a).0 + cut(b).0 =~= cut(a).0);
        assert(cut(a).1 =~= cut(b).1);
    } else {
        let d = b.drop_last();
        cut_carries_on(a, d);
        assert((a + b).drop_last() =~= a + d);
        assert((a + b).last() == b.last());
        assert(cut(a + b).0 =~= cut(a).0 + cut(b).0);
    }
}

/// A text has the words that are wanted where each of them is one of its own, wherever it stands.
pub proof fn wanted_words_may_stand_anywhere(text: Seq<char>, wanted: Seq<char>)
    ensures
        has_words(text, wanted) <==> forall|w: Seq<char>| #[trigger]
            words(wanted).contains(w) ==> words(text).contains(w),
{
    if has_words(text, wanted) {
        assert forall|w: Seq<char>| #[trigger] words(wanted).contains(w) implies words(
            text,
        ).contains(w) by {
            let i = choose|i: int| 0 <= i < words(wanted).len() && words(wanted)[i] == w;
            assert(words(text).contains(words(wanted)[i]));
        }
    }
    if forall|w: Seq<char>| #[trigger] words(wanted).contains(w) ==> words(text).contains(w) {
        assert forall|i: int| 0 <= i < words(wanted).len() implies words(text).contains(
            #[trigger] words(wanted)[i],
        ) by {
            assert(words(wanted).contains(words(wanted)[i]));
        }
    }
}

/// A document counts for a word where it holds the whole words typed before it, and where the
/// filter admits it.
pub proof fn which_documents_count(
    s: Store,
    c: Seq<char>,
    filter: Filter,
    heads: Option<Seq<Seq<char>>>,
    ids: Seq<Seq<char>>,
    id: Seq<char>,
)
    ensures
        ({
            let cols = s.index@.collections;
            let admitted = filter.0@.len() == 0 || (cols.contains_key(c)
                && cols[c].docs.contains_key(id) && passes(filter, cols[c].docs[id].attrs));
            let held = heads is None || heads->0.contains(id);
            &&& counts(s, c, filter, heads, id) <==> admitted && held
            &&& df_of(s, c, filter, heads, Seq::<Seq<char>>::empty()) == 0
            &&& df_of(s, c, filter, heads, ids.push(id)) == df_of(s, c, filter, heads, ids) + if admitted
                && held {
                1int
            } else {
                0
            }
        }),
{
    assert(ids.push(id).drop_last() =~= ids);
}

/// A word is offered with the number of documents that count for it, and only where there is one.
pub proof fn a_word_is_offered_with_its_documents(
    s: Store,
    c: Seq<char>,
    filter: Filter,
    heads: Option<Seq<Seq<char>>>,
    all: Seq<(Seq<char>, usize, Seq<Seq<char>>)>,
    word: (Seq<char>, usize, Seq<Seq<char>>),
)
    requires
        df_of(s, c, filter, heads, word.2) <= usize::MAX,
    ensures
        counted_words(
            s,
            c,
            filter,
            heads,
            Seq::<(Seq<char>, usize, Seq<Seq<char>>)>::empty(),
        ).len() == 0,
        df_of(s, c, filter, heads, word.2) == 0 ==> counted_words(s, c, filter, heads, all.push(word))
            == counted_words(s, c, filter, heads, all),
        df_of(s, c, filter, heads, word.2) > 0 ==> counted_words(s, c, filter, heads, all.push(word))
            == counted_words(s, c, filter, heads, all).push(
            RowV {
                term: word.0,
                df: df_of(s, c, filter, heads, word.2) as usize,
                distance: word.1,
            },
        ),
{
    assert(all.push(word).drop_last() =~= all);
}

/// What a collection completes a typed text to: the words that begin with its last fragment, or
/// those near it, among the documents that hold the words before; nothing where the field is not
/// indexed, nothing is begun, or no document holds those words.
pub proof fn what_a_text_is_completed_to<L: Lexicon>(
    s: Store,
    l: L,
    c: Seq<char>,
    field: Seq<char>,
    typed: Seq<char>,
    filter: Filter,
    fuzzy: bool,
)
    ensures
        ({
            let out = completions(s, l, c, field, typed, filter, fuzzy);
            let (heads, fragment) = split_of(l, c, field, typed);
            let held = holding_of(l, c, field, heads);
            let begun = fragment->0;
            let open = declares(s.index@.fts, c, field) && s.index@.collections.contains_key(c)
                && fragment is Some && !(held is Some && held->0.len() == 0);
            &&& !open ==> out.len() == 0
            &&& open && !fuzzy ==> out == counted_words(
                s,
                c,
                filter,
                held,
                at_no_distance(complete_of(l, c, field, begun)),
            )
            &&& open && fuzzy && edits_of(l, begun) == 0 ==> out.len() == 0
            &&& open && fuzzy && edits_of(l, begun) != 0 ==> out == counted_words(
                s,
                c,
                filter,
                held,
                near_of(l, c, field, begun, edits_of(l, begun)),
            )
        }),
{
}

/// The same word from another collection is one word: its documents are added up, and the nearer
/// of the two distances is its own.
pub proof fn one_word_is_offered_once(rows: Seq<RowV>, r: RowV, i: int)
    requires
        0 <= i < rows.len(),
        rows[i].term == r.term,
        forall|j: int| 0 <= j < rows.len() && j != i ==> (#[trigger] rows[j]).term != r.term,
    ensures
        ({
            let out = merged_with(rows, r);
            &&& out.len() == rows.len()
            &&& forall|j: int| 0 <= j < rows.len() && j != i ==> #[trigger] out[j] == rows[j]
            &&& out[i].term == r.term
            &&& rows[i].df + r.df <= usize::MAX ==> out[i].df == rows[i].df + r.df
            &&& rows[i].df + r.df > usize::MAX ==> out[i].df == usize::MAX
            &&& out[i].distance <= rows[i].distance && out[i].distance <= r.distance
            &&& out[i].distance == rows[i].distance || out[i].distance == r.distance
        }),
{
    a_term_is_found(rows, r.term, i);
}

proof fn a_term_is_found(rows: Seq<RowV>, term: Seq<char>, i: int)
    requires
        0 <= i < rows.len(),
        rows[i].term == term,
        forall|j: int| 0 <= j < rows.len() && j != i ==> (#[trigger] rows[j]).term != term,
    ensures
        crate::suggest::term_at(rows, term) == Some(i),
    decreases rows.len(),
{
    let d = rows.drop_last();
    if i < rows.len() - 1 {
        assert(rows[rows.len() - 1].term != term);
        assert forall|j: int| 0 <= j < d.len() && j != i implies (#[trigger] d[j]).term != term by {
            assert(rows[j] == d[j]);
        }
        assert(d[i] == rows[i]);
        a_term_is_found(d, term, i);
    }
}

} // verus!
