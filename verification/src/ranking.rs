//! The key by which finished candidates may be ordered for output: how many
//! of a candidate's characters can be typed on a plain keyboard.

use crate::generator::in_alphabet;
use crate::text::to_chars;
use vstd::prelude::*;

verus! {

/// An ASCII letter or digit.
pub open spec fn is_alphanumeric(c: char) -> bool {
    ('0' <= c <= '9') || ('A' <= c <= 'Z') || ('a' <= c <= 'z')
}

/// One of the symbols ``!"#$%&'()*+,-./:;<=>?@[\]^_`{|}~``.
pub open spec fn is_symbol(c: char) -> bool {
    ('!' <= c <= '/') || (':' <= c <= '@') || ('[' <= c <= '`') || ('{' <= c <= '~')
}

/// A character that counts as typeable: an ASCII letter, digit or symbol.
pub open spec fn is_typeable(c: char) -> bool {
    is_alphanumeric(c) || is_symbol(c)
}

/// How many characters of `s` are typeable.
pub open spec fn typeable_count(s: Seq<char>) -> nat
    decreases s.len(),
{
    if s.len() == 0 {
        0
    } else {
        typeable_count(s.drop_last()) + if is_typeable(s.last()) {
            1nat
        } else {
            0nat
        }
    }
}

/// Whether `c` is typeable.
pub fn typeable(c: char) -> (yes: bool)
    ensures
        yes == is_typeable(c),
{
    let alphanumeric = ('0' <= c && c <= '9') || ('A' <= c && c <= 'Z') || ('a' <= c && c <= 'z');
    let symbol = ('!' <= c && c <= '/') || (':' <= c && c <= '@') || ('[' <= c && c <= '`') || ('{'
        <= c && c <= '~');
    alphanumeric || symbol
}

/// The number of typeable characters in `s`.
pub fn count_typeable_chars(s: &str) -> (n: usize)
    ensures
        n == typeable_count(s@),
{
    let word = to_chars(s);
    let mut n: usize = 0;
    let mut i: usize = 0;
    assert(word@.take(0) =~= Seq::empty());
    while i < word.len()
        invariant
            i <= word.len(),
            n <= i,
            n == typeable_count(word@.take(i as int)),
        decreases word.len() - i,
    {
        proof {
            assert(word@.take(i + 1).drop_last() =~= word@.take(i as int));
            assert(word@.take(i + 1).last() == word@[i as int]);
        }
        if typeable(word[i]) {
            n += 1;
        }
        i += 1;
    }
    assert(word@.take(i as int) =~= word@);
    n
}

/// The typeable characters are exactly those that substitution and
/// insertion draw from.
pub proof fn lemma_typeable_is_alphabet(c: char)
    ensures
        is_typeable(c) <==> in_alphabet(c),
{
}

/// The count never exceeds the length, and reaches it exactly when every
/// character is typeable.
pub proof fn lemma_typeable_count_bounds(s: Seq<char>)
    ensures
        typeable_count(s) <= s.len(),
        typeable_count(s) == s.len() <==> forall|i: int| 0 <= i < s.len() ==> is_typeable(s[i]),
    decreases s.len(),
{
    if s.len() > 0 {
        let head = s.drop_last();
        lemma_typeable_count_bounds(head);
        if typeable_count(s) == s.len() {
            assert forall|i: int| 0 <= i < s.len() implies is_typeable(s[i]) by {
                if i < head.len() {
                    assert(head[i] == s[i]);
                }
            }
        }
        if forall|i: int| 0 <= i < s.len() ==> is_typeable(s[i]) {
            assert forall|i: int| 0 <= i < head.len() implies is_typeable(head[i]) by {
                assert(head[i] == s[i]);
            }
            assert(is_typeable(s[s.len() - 1]));
        }
    }
}

} // verus!
