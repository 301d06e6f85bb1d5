//! Passage between strings and the character vectors the generator works on.

use crate::order::words;
use vstd::prelude::*;
use vstd::std_specs::iter::IteratorSpec;

verus! {

/// The strings of `v` as sequences of characters, in the order of `v`.
pub open spec fn texts(v: Seq<String>) -> Seq<Seq<char>> {
    Seq::new(v.len(), |k: int| v[k]@)
}

/// `String::push` appends one character to the end of the string; nothing
/// else of the string changes.
pub assume_specification[ String::push ](s: &mut String, ch: char)
    ensures
        final(s)@ == old(s)@.push(ch),
;

/// The characters of `s`, in order.
pub fn to_chars(s: &str) -> (out: Vec<char>)
    ensures
        out@ == s@,
{
    let mut out: Vec<char> = Vec::new();
    for c in it: s.chars()
        invariant
            it.seq() == s@,
            out@ == s@.subrange(0, it.index() as int),
    {
        out.push(c);
        assert(out@ =~= s@.subrange(0, it.index() + 1));
    }
    assert(s@.subrange(0, s@.len() as int) =~= s@);
    out
}

/// The string whose characters are those of `word`, in order.
pub fn to_text(word: &Vec<char>) -> (out: String)
    ensures
        out@ == word@,
{
    let mut out = String::new();
    let mut i: usize = 0;
    while i < word.len()
        invariant
            i <= word.len(),
            out@ == word@.subrange(0, i as int),
        decreases word.len() - i,
    {
        out.push(word[i]);
        i += 1;
        assert(out@ =~= word@.subrange(0, i as int));
    }
    assert(word@.subrange(0, word.len() as int) =~= word@);
    out
}

/// The strings spelled by `list`, in the same order.
pub fn to_texts(list: &Vec<Vec<char>>) -> (out: Vec<String>)
    ensures
        texts(out@) == words(list@),
{
    let mut out: Vec<String> = Vec::new();
    let mut i: usize = 0;
    while i < list.len()
        invariant
            i <= list.len(),
            out.len() == i,
            forall|k: int| 0 <= k < i ==> out@[k]@ == list@[k]@,
        decreases list.len() - i,
    {
        out.push(to_text(&list[i]));
        i += 1;
    }
    assert(texts(out@) =~= words(list@));
    out
}

} // verus!
