//! The words of a text, as a filter compares them.

use vstd::prelude::*;

use crate::value::chars_of;

verus! {

/// The character is part of a word: a letter or a digit, or anything outside ASCII.
pub open spec fn in_word(c: char) -> bool {
    ('0' <= c && c <= '9') || ('a' <= c && c <= 'z') || ('A' <= c && c <= 'Z') || c > '\x7f'
}

/// The character without regard to case, within ASCII.
pub open spec fn folded(c: char) -> char {
    if 'A' <= c && c <= 'Z' {
        ((c as u8) + 32) as u8 as char
    } else {
        c
    }
}

/// The words of a text that have ended, and the one that has not.
pub open spec fn cut(text: Seq<char>) -> (Seq<Seq<char>>, Seq<char>)
    decreases text.len(),
{
    if text.len() == 0 {
        (Seq::empty(), Seq::empty())
    } else {
        let (done, word) = cut(text.drop_last());
        if in_word(text.last()) {
            (done, word.push(folded(text.last())))
        } else if word.len() > 0 {
            (done.push(word), Seq::empty())
        } else {
            (done, word)
        }
    }
}

/// The words of a text, in order.
pub open spec fn words(text: Seq<char>) -> Seq<Seq<char>> {
    let (done, word) = cut(text);
    if word.len() > 0 {
        done.push(word)
    } else {
        done
    }
}

/// Every word of `wanted` is a word of `text`.
pub open spec fn has_words(text: Seq<char>, wanted: Seq<char>) -> bool {
    forall|i: int|
        0 <= i < words(wanted).len() ==> words(text).contains(#[trigger] words(wanted)[i])
}

fn is_in_word(c: char) -> (r: bool)
    ensures
        r == in_word(c),
{
    ('0' <= c && c <= '9') || ('a' <= c && c <= 'z') || ('A' <= c && c <= 'Z') || c > '\x7f'
}

fn fold(c: char) -> (r: char)
    ensures
        r == folded(c),
{
    if 'A' <= c && c <= 'Z' {
        let b: u8 = c as u8;
        (b + 32) as char
    } else {
        c
    }
}

/// The words as they were cut.
pub open spec fn letters(v: Seq<Vec<char>>) -> Seq<Seq<char>> {
    v.map_values(|w: Vec<char>| w@)
}

fn words_of(text: &str) -> (out: Vec<Vec<char>>)
    ensures
        letters(out@) == words(text@),
{
    let all = chars_of(text);
    let mut done: Vec<Vec<char>> = Vec::new();
    let mut word: Vec<char> = Vec::new();
    let mut i: usize = 0;
    proof {
        assert(all@.take(0) =~= Seq::empty());
        assert(letters(done@) =~= Seq::empty());
        assert(word@ =~= Seq::empty());
    }
    while i < all.len()
        invariant
            i <= all@.len(),
            (letters(done@), word@) == cut(all@.take(i as int)),
        decreases all@.len() - i,
    {
        let c: char = all[i];
        proof {
            assert(all@.take(i + 1).drop_last() =~= all@.take(i as int));
            assert(all@.take(i + 1).last() == c);
        }
        if is_in_word(c) {
            word.push(fold(c));
        } else if word.len() > 0 {
            let ghost prior = letters(done@);
            let ghost w = word@;
            let mut whole: Vec<char> = Vec::new();
            std::mem::swap(&mut whole, &mut word);
            done.push(whole);
            proof {
                assert(letters(done@) =~= prior.push(w));
                assert(word@ =~= Seq::empty());
            }
        }
        i = i + 1;
    }
    proof {
        assert(all@.take(i as int) =~= all@);
    }
    if word.len() > 0 {
        let ghost prior = letters(done@);
        let ghost w = word@;
        done.push(word);
        proof {
            assert(letters(done@) =~= prior.push(w));
        }
    }
    done
}

fn same_word(a: &Vec<char>, b: &Vec<char>) -> (r: bool)
    ensures
        r == (a@ == b@),
{
    if a.len() != b.len() {
        return false;
    }
    let mut i: usize = 0;
    while i < a.len()
        invariant
            i <= a@.len(),
            a@.len() == b@.len(),
            forall|j: int| 0 <= j < i ==> a@[j] == b@[j],
        decreases a@.len() - i,
    {
        if a[i] != b[i] {
            return false;
        }
        i = i + 1;
    }
    proof {
        assert(a@ =~= b@);
    }
    true
}

fn is_word(all: &Vec<Vec<char>>, w: &Vec<char>) -> (r: bool)
    ensures
        r == letters(all@).contains(w@),
{
    let mut i: usize = 0;
    while i < all.len()
        invariant
            i <= all@.len(),
            forall|j: int| 0 <= j < i ==> (#[trigger] all@[j])@ != w@,
        decreases all@.len() - i,
    {
        if same_word(&all[i], w) {
            proof {
                assert(letters(all@)[i as int] == w@);
            }
            return true;
        }
        i = i + 1;
    }
    proof {
        if letters(all@).contains(w@) {
            let j = choose|j: int| 0 <= j < letters(all@).len() && letters(all@)[j] == w@;
            assert(all@[j]@ == w@);
        }
    }
    false
}

/// Whether every word of `wanted` is a word of `text`.
pub fn holds_words(text: &str, wanted: &str) -> (r: bool)
    ensures
        r == has_words(text@, wanted@),
{
    let have = words_of(text);
    let want = words_of(wanted);
    let mut i: usize = 0;
    while i < want.len()
        invariant
            i <= want@.len(),
            letters(have@) == words(text@),
            letters(want@) == words(wanted@),
            forall|j: int|
                0 <= j < i ==> words(text@).contains(#[trigger] words(wanted@)[j]),
        decreases want@.len() - i,
    {
        proof {
            assert(letters(want@)[i as int] == want@[i as int]@);
        }
        if !is_word(&have, &want[i]) {
            proof {
                assert(!words(text@).contains(words(wanted@)[i as int]));
            }
            return false;
        }
        i = i + 1;
    }
    true
}

} // verus!
