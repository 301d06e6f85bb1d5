//! The candidates themselves: single edits over a fixed alphabet, their
//! composition up to a distance, and swaps of characters a few places apart.

use crate::order::{
    ascending, copy_word, lemma_ascending_no_duplicates, lemma_ascending_unique, merge_union,
    push_word, sorted_set, words,
};
use crate::text::{texts, to_chars, to_texts};
use vstd::prelude::*;
use vstd::seq_lib::{seq_to_set_distributes_over_add, seq_to_set_is_finite};

verus! {

/// The number of characters that substitution and insertion draw from.
pub const ALPHABET_SIZE: usize = 94;

/// The code of the first character of the alphabet, `!`.
pub const FIRST_CODE: u8 = 0x21;

/// The code of the last character of the alphabet, `~`.
pub const LAST_CODE: u8 = 0x7E;

/// The largest gap between two swapped characters.
pub const MAX_SWAP_GAP: usize = 3;

/// The characters that substitution and insertion draw from: the printable
/// ASCII characters other than the space.
pub open spec fn in_alphabet(c: char) -> bool {
    '!' <= c <= '~'
}

/// `t` is `s` with one character replaced by a different one of the alphabet.
pub open spec fn is_substitution(s: Seq<char>, t: Seq<char>) -> bool {
    exists|i: int, c: char|
        0 <= i < s.len() && in_alphabet(c) && c != s[i] && t == #[trigger] s.update(i, c)
}

/// `t` is `s` with one character removed.
pub open spec fn is_deletion(s: Seq<char>, t: Seq<char>) -> bool {
    exists|i: int| 0 <= i < s.len() && t == #[trigger] s.remove(i)
}

/// `t` is `s` with one character of the alphabet put in, before a character
/// or after the last.
pub open spec fn is_insertion(s: Seq<char>, t: Seq<char>) -> bool {
    exists|i: int, c: char| 0 <= i <= s.len() && in_alphabet(c) && t == #[trigger] s.insert(i, c)
}

/// `t` is one substitution, deletion or insertion away from `s`.
pub open spec fn one_edit(s: Seq<char>, t: Seq<char>) -> bool {
    is_substitution(s, t) || is_deletion(s, t) || is_insertion(s, t)
}

pub open spec fn substitutions(s: Seq<char>) -> Set<Seq<char>> {
    Set::new(|t: Seq<char>| is_substitution(s, t))
}

pub open spec fn deletions(s: Seq<char>) -> Set<Seq<char>> {
    Set::new(|t: Seq<char>| is_deletion(s, t))
}

pub open spec fn insertions(s: Seq<char>) -> Set<Seq<char>> {
    Set::new(|t: Seq<char>| is_insertion(s, t))
}

/// Every string one edit away from `s`.
pub open spec fn expansion(s: Seq<char>) -> Set<Seq<char>> {
    Set::new(|t: Seq<char>| one_edit(s, t))
}

/// How many replacements one position admits: the alphabet, less the
/// character that stands there if it belongs to the alphabet.
pub open spec fn replacements_for(c: char) -> nat {
    if in_alphabet(c) {
        (ALPHABET_SIZE - 1) as nat
    } else {
        ALPHABET_SIZE as nat
    }
}

/// How many substitutions are written down for `s`, counting repeats.
pub open spec fn substitution_count(s: Seq<char>) -> nat
    decreases s.len(),
{
    if s.len() == 0 {
        0
    } else {
        substitution_count(s.drop_last()) + replacements_for(s.last())
    }
}

/// How many candidates are written down for `s` before repeats are dropped.
pub open spec fn raw_count(s: Seq<char>) -> nat {
    substitution_count(s) + s.len() + (s.len() + 1) * (ALPHABET_SIZE as nat)
}

/// Every substitution of `word`, one entry per position and replacement.
pub fn substitution_candidates(word: &Vec<char>) -> (out: Vec<Vec<char>>)
    ensures
        words(out@).to_set() == substitutions(word@),
        out.len() == substitution_count(word@),
{
    let mut out: Vec<Vec<char>> = Vec::new();
    let ghost s = word@;
    let mut i: usize = 0;
    assert(s.take(0) =~= Seq::empty());
    while i < word.len()
        invariant
            i <= word.len(),
            s == word@,
            out.len() == substitution_count(s.take(i as int)),
            forall|t: Seq<char>| #[trigger]
                words(out@).to_set().contains(t) ==> is_substitution(s, t),
            forall|p: int, c: char|
                0 <= p < i && in_alphabet(c) && c != s[p] ==> words(out@).to_set().contains(
                    #[trigger] s.update(p, c),
                ),
        decreases word.len() - i,
    {
        let here = word[i];
        let ghost base = out.len();
        let mut b: u8 = FIRST_CODE;
        while b <= LAST_CODE
            invariant
                FIRST_CODE <= b <= LAST_CODE + 1,
                i < word.len(),
                s == word@,
                here == s[i as int],
                out.len() == base + (b - FIRST_CODE) - (if in_alphabet(here) && here < (b as char) {
                    1int
                } else {
                    0int
                }),
                forall|t: Seq<char>| #[trigger]
                    words(out@).to_set().contains(t) ==> is_substitution(s, t),
                forall|p: int, c: char|
                    0 <= p < i && in_alphabet(c) && c != s[p] ==> words(out@).to_set().contains(
                        #[trigger] s.update(p, c),
                    ),
                forall|c: char|
                    in_alphabet(c) && c < (b as char) && c != here ==> words(
                        out@,
                    ).to_set().contains(#[trigger] s.update(i as int, c)),
            decreases LAST_CODE + 1 - b,
        {
            let c = b as char;
            if c != here {
                let mut w = copy_word(word);
                w.set(i, c);
                assert(w@ == s.update(i as int, c));
                assert(is_substitution(s, w@));
                push_word(&mut out, w);
            }
            b += 1;
        }
        proof {
            assert(s.take(i + 1).drop_last() =~= s.take(i as int));
            assert(s.take(i + 1).last() == here);
        }
        i += 1;
    }
    assert(s.take(i as int) =~= s);
    assert(words(out@).to_set() =~= substitutions(s));
    out
}

/// Every deletion from `word`, one entry per position.
pub fn deletion_candidates(word: &Vec<char>) -> (out: Vec<Vec<char>>)
    ensures
        words(out@).to_set() == deletions(word@),
        out.len() == word.len(),
{
    let mut out: Vec<Vec<char>> = Vec::new();
    let ghost s = word@;
    let mut i: usize = 0;
    while i < word.len()
        invariant
            i <= word.len(),
            s == word@,
            out.len() == i,
            forall|t: Seq<char>| #[trigger] words(out@).to_set().contains(t) ==> is_deletion(s, t),
            forall|p: int| 0 <= p < i ==> words(out@).to_set().contains(#[trigger] s.remove(p)),
        decreases word.len() - i,
    {
        let mut w = copy_word(word);
        w.remove(i);
        assert(w@ == s.remove(i as int));
        assert(is_deletion(s, w@));
        push_word(&mut out, w);
        i += 1;
    }
    assert(words(out@).to_set() =~= deletions(s));
    out
}

/// Every insertion into `word`, one entry per place and character.
pub fn insertion_candidates(word: &Vec<char>) -> (out: Vec<Vec<char>>)
    ensures
        words(out@).to_set() == insertions(word@),
        out.len() == (word.len() + 1) * ALPHABET_SIZE,
{
    let mut out: Vec<Vec<char>> = Vec::new();
    let ghost s = word@;
    let mut i: usize = 0;
    loop
        invariant_except_break
            out.len() == i * ALPHABET_SIZE,
        invariant
            i <= word.len(),
            s == word@,
            forall|t: Seq<char>| #[trigger]
                words(out@).to_set().contains(t) ==> is_insertion(s, t),
            forall|p: int, c: char|
                0 <= p < i && in_alphabet(c) ==> words(out@).to_set().contains(
                    #[trigger] s.insert(p, c),
                ),
        ensures
            i == word.len(),
            out.len() == (i + 1) * ALPHABET_SIZE,
            forall|t: Seq<char>| #[trigger]
                words(out@).to_set().contains(t) ==> is_insertion(s, t),
            forall|p: int, c: char|
                0 <= p <= i && in_alphabet(c) ==> words(out@).to_set().contains(
                    #[trigger] s.insert(p, c),
                ),
        decreases word.len() - i,
    {
        let mut b: u8 = FIRST_CODE;
        while b <= LAST_CODE
            invariant
                FIRST_CODE <= b <= LAST_CODE + 1,
                i <= word.len(),
                s == word@,
                out.len() == i * ALPHABET_SIZE + (b - FIRST_CODE),
                forall|t: Seq<char>| #[trigger]
                    words(out@).to_set().contains(t) ==> is_insertion(s, t),
                forall|p: int, c: char|
                    0 <= p < i && in_alphabet(c) ==> words(out@).to_set().contains(
                        #[trigger] s.insert(p, c),
                    ),
                forall|c: char|
                    in_alphabet(c) && c < (b as char) ==> words(out@).to_set().contains(
                        #[trigger] s.insert(i as int, c),
                    ),
            decreases LAST_CODE + 1 - b,
        {
            let c = b as char;
            let mut w = copy_word(word);
            w.insert(i, c);
            assert(w@ == s.insert(i as int, c));
            assert(is_insertion(s, w@));
            push_word(&mut out, w);
            b += 1;
        }
        if i == word.len() {
            break;
        }
        i += 1;
    }
    assert(words(out@).to_set() =~= insertions(s));
    out
}

/// Every candidate one edit away from `word`, as written down: repeats are
/// still in it.
pub fn raw_candidates(word: &Vec<char>) -> (out: Vec<Vec<char>>)
    ensures
        words(out@).to_set() == expansion(word@),
        out.len() == raw_count(word@),
{
    let mut out = substitution_candidates(word);
    let mut gone = deletion_candidates(word);
    let mut put = insertion_candidates(word);
    proof {
        let a = words(out@);
        let b = words(gone@);
        let c = words(put@);
        assert(words(out@ + gone@) =~= a + b);
        assert(words(out@ + gone@ + put@) =~= a + b + c);
        seq_to_set_distributes_over_add(a, b);
        seq_to_set_distributes_over_add(a + b, c);
        assert(substitutions(word@).union(deletions(word@)).union(insertions(word@)) =~= expansion(
            word@,
        ));
    }
    out.append(&mut gone);
    out.append(&mut put);
    out
}

/// `s` with the characters at `i` and `i + gap` exchanged.
pub open spec fn swapped(s: Seq<char>, i: int, gap: int) -> Seq<char> {
    s.update(i, s[i + gap]).update(i + gap, s[i])
}

/// The swaps of `s` at one gap, by the position of the first of the two
/// characters: none where the gap reaches past the end.
pub open spec fn transpositions(s: Seq<char>, gap: nat) -> Seq<Seq<char>> {
    if gap >= s.len() {
        Seq::empty()
    } else {
        Seq::new((s.len() - gap) as nat, |i: int| swapped(s, i, gap as int))
    }
}

/// Every string one edit away from a member of `from`.
pub open spec fn successors(from: Set<Seq<char>>) -> Set<Seq<char>> {
    Set::new(|t: Seq<char>| exists|u: Seq<char>| from.contains(u) && #[trigger] one_edit(u, t))
}

/// The strings reached from `s` by exactly `d` successive edits.
pub open spec fn frontier(s: Seq<char>, d: nat) -> Set<Seq<char>>
    decreases d,
{
    if d == 0 {
        set![s]
    } else {
        successors(frontier(s, (d - 1) as nat))
    }
}

/// The strings reached from `s` by at most `d` successive edits.
pub open spec fn reachable(s: Seq<char>, d: nat) -> Set<Seq<char>>
    decreases d,
{
    if d == 0 {
        set![s]
    } else {
        reachable(s, (d - 1) as nat).union(frontier(s, d))
    }
}

/// The largest gap used at a transposition distance.
pub open spec fn max_gap(transposition_distance: nat) -> nat {
    if transposition_distance < MAX_SWAP_GAP {
        transposition_distance
    } else {
        MAX_SWAP_GAP as nat
    }
}

/// Every swap of a member of `from` at a gap from 1 to `limit`.
pub open spec fn swaps(from: Set<Seq<char>>, limit: nat) -> Set<Seq<char>> {
    Set::new(
        |t: Seq<char>|
            exists|u: Seq<char>, gap: nat|
                from.contains(u) && 1 <= gap <= limit && #[trigger] transpositions(
                    u,
                    gap,
                ).contains(t),
    )
}

/// The candidates for `s`: what at most `d` edits reach, and one swap of
/// each of those at every gap the transposition distance allows.
pub open spec fn variations(s: Seq<char>, d: nat, transposition_distance: nat) -> Set<Seq<char>> {
    reachable(s, d).union(swaps(reachable(s, d), max_gap(transposition_distance)))
}

/// `list` holds the candidates for `s`, each once, in ascending order.
pub open spec fn is_generated(
    list: Seq<Seq<char>>,
    s: Seq<char>,
    d: nat,
    transposition_distance: nat,
) -> bool {
    ascending(list) && list.to_set() == variations(s, d, transposition_distance)
}

/// The candidates for `s`, each once, in ascending order.
pub open spec fn generated(s: Seq<char>, d: nat, transposition_distance: nat) -> Seq<Seq<char>> {
    choose|list: Seq<Seq<char>>| is_generated(list, s, d, transposition_distance)
}

/// The swaps of `word` at gap `offset`, by the position of the first of the
/// two characters.
pub fn transposed_words(word: &Vec<char>, offset: usize) -> (out: Vec<Vec<char>>)
    ensures
        words(out@) == transpositions(word@, offset as nat),
{
    let mut out: Vec<Vec<char>> = Vec::new();
    if word.len() <= offset {
        assert(words(out@) =~= transpositions(word@, offset as nat));
        return out;
    }
    let count: usize = word.len() - offset;
    let mut i: usize = 0;
    while i < count
        invariant
            i <= count,
            count == word.len() - offset,
            offset < word.len(),
            out.len() == i,
            forall|k: int| 0 <= k < i ==> out@[k]@ == swapped(word@, k, offset as int),
        decreases count - i,
    {
        let mut w = copy_word(word);
        let first = word[i];
        let second = word[i + offset];
        w.set(i, second);
        w.set(i + offset, first);
        out.push(w);
        i += 1;
    }
    assert(words(out@) =~= transpositions(word@, offset as nat));
    out
}

/// Every candidate one edit away from a word of `from`, repeats included.
pub fn expand_all(from: &Vec<Vec<char>>) -> (raw: Vec<Vec<char>>)
    ensures
        words(raw@).to_set() == successors(words(from@).to_set()),
{
    let mut raw: Vec<Vec<char>> = Vec::new();
    let ghost src = words(from@);
    let mut k: usize = 0;
    while k < from.len()
        invariant
            k <= from.len(),
            src == words(from@),
            forall|t: Seq<char>| #[trigger]
                words(raw@).to_set().contains(t) ==> successors(src.to_set()).contains(t),
            forall|m: int, t: Seq<char>|
                0 <= m < k && #[trigger] one_edit(src[m], t) ==> words(raw@).to_set().contains(t),
        decreases from.len() - k,
    {
        let mut more = raw_candidates(&from[k]);
        proof {
            assert(words(raw@ + more@) =~= words(raw@) + words(more@));
            seq_to_set_distributes_over_add(words(raw@), words(more@));
            assert(src.contains(src[k as int]));
            assert forall|t: Seq<char>| words(more@).to_set().contains(t) implies successors(
                src.to_set(),
            ).contains(t) by {
                assert(one_edit(src[k as int], t));
            }
        }
        raw.append(&mut more);
        k += 1;
    }
    proof {
        assert forall|t: Seq<char>| successors(src.to_set()).contains(t) implies words(
            raw@,
        ).to_set().contains(t) by {
            let u = choose|u: Seq<char>| src.to_set().contains(u) && #[trigger] one_edit(u, t);
            let m = choose|m: int| 0 <= m < src.len() && src[m] == u;
            assert(one_edit(src[m], t));
        }
        assert(words(raw@).to_set() =~= successors(src.to_set()));
    }
    raw
}

/// Every swap of a word of `from` at a gap from 1 to `limit`, repeats
/// included.
pub fn swap_all(from: &Vec<Vec<char>>, limit: usize) -> (raw: Vec<Vec<char>>)
    ensures
        words(raw@).to_set() == swaps(words(from@).to_set(), limit as nat),
{
    let mut raw: Vec<Vec<char>> = Vec::new();
    let ghost src = words(from@);
    let ghost goal = swaps(src.to_set(), limit as nat);
    let mut gap: usize = 0;
    while gap < limit
        invariant
            gap <= limit,
            src == words(from@),
            goal == swaps(src.to_set(), limit as nat),
            forall|t: Seq<char>| #[trigger] words(raw@).to_set().contains(t) ==> goal.contains(t),
            forall|m: int, g: nat, t: Seq<char>|
                0 <= m < src.len() && 1 <= g <= gap && #[trigger] transpositions(
                    src[m],
                    g,
                ).contains(t) ==> words(raw@).to_set().contains(t),
        decreases limit - gap,
    {
        gap += 1;
        let mut k: usize = 0;
        while k < from.len()
            invariant
                k <= from.len(),
                1 <= gap <= limit,
                src == words(from@),
                goal == swaps(src.to_set(), limit as nat),
                forall|t: Seq<char>| #[trigger]
                    words(raw@).to_set().contains(t) ==> goal.contains(t),
                forall|m: int, g: nat, t: Seq<char>|
                    0 <= m < src.len() && 1 <= g < gap && #[trigger] transpositions(
                        src[m],
                        g,
                    ).contains(t) ==> words(raw@).to_set().contains(t),
                forall|m: int, t: Seq<char>|
                    0 <= m < k && #[trigger] transpositions(src[m], gap as nat).contains(t)
                        ==> words(raw@).to_set().contains(t),
            decreases from.len() - k,
        {
            let mut more = transposed_words(&from[k], gap);
            proof {
                assert(words(raw@ + more@) =~= words(raw@) + words(more@));
                seq_to_set_distributes_over_add(words(raw@), words(more@));
                assert(src.contains(src[k as int]));
                assert forall|t: Seq<char>| words(more@).to_set().contains(t) implies goal.contains(
                    t,
                ) by {
                    assert(transpositions(src[k as int], gap as nat).contains(t));
                }
            }
            raw.append(&mut more);
            k += 1;
        }
    }
    proof {
        assert forall|t: Seq<char>| goal.contains(t) implies words(raw@).to_set().contains(t) by {
            let (u, g) = choose|u: Seq<char>, g: nat|
                src.to_set().contains(u) && 1 <= g <= limit && #[trigger] transpositions(
                    u,
                    g,
                ).contains(t);
            let m = choose|m: int| 0 <= m < src.len() && src[m] == u;
            assert(transpositions(src[m], g).contains(t));
        }
        assert(words(raw@).to_set() =~= goal);
    }
    raw
}

/// The candidates for `word` as a set in ascending order.
pub fn variation_words(word: &Vec<char>, max_distance: usize, transposition_distance: usize) -> (out:
    Vec<Vec<char>>)
    ensures
        ascending(words(out@)),
        words(out@).to_set() == variations(
            word@,
            max_distance as nat,
            transposition_distance as nat,
        ),
{
    let ghost s = word@;
    let mut level: Vec<Vec<char>> = Vec::new();
    push_word(&mut level, copy_word(word));
    let mut all: Vec<Vec<char>> = Vec::new();
    push_word(&mut all, copy_word(word));
    proof {
        assert(words(level@) =~= seq![s]);
        assert(words(all@) =~= seq![s]);
        assert(seq![s].to_set() =~= set![s]);
    }
    let mut d: usize = 0;
    while d < max_distance
        invariant
            d <= max_distance,
            ascending(words(all@)),
            words(level@).to_set() == frontier(s, d as nat),
            words(all@).to_set() == reachable(s, d as nat),
        decreases max_distance - d,
    {
        let raw = expand_all(&level);
        level = sorted_set(&raw);
        all = merge_union(&all, &level);
        d += 1;
    }
    let limit: usize = if transposition_distance < MAX_SWAP_GAP {
        transposition_distance
    } else {
        MAX_SWAP_GAP
    };
    let raw = swap_all(&all, limit);
    let swapped_set = sorted_set(&raw);
    merge_union(&all, &swapped_set)
}

/// Every string exactly one substitution, deletion or insertion away from
/// `password`, each once, in ascending order.
pub fn generate_distance_1_variations(password: &str) -> (out: Vec<String>)
    ensures
        ascending(texts(out@)),
        texts(out@).no_duplicates(),
        texts(out@).to_set() == expansion(password@),
        expansion(password@).finite(),
        out.len() == expansion(password@).len(),
        out.len() <= raw_count(password@),
{
    let word = to_chars(password);
    let raw = raw_candidates(&word);
    let set = sorted_set(&raw);
    let out = to_texts(&set);
    proof {
        lemma_ascending_no_duplicates(texts(out@));
        texts(out@).unique_seq_to_set();
        seq_to_set_is_finite(texts(out@));
        words(raw@).lemma_cardinality_of_set();
        assert(texts(out@).len() == out.len());
        assert(words(raw@).len() == raw.len());
    }
    out
}

/// The swaps of `password` at gap `offset`: one per position `i` below
/// `length - offset`, with the characters at `i` and `i + offset` exchanged,
/// in the order of `i`; none where `offset` is at least the length.
pub fn generate_transposition_variations(password: &str, offset: usize) -> (out: Vec<String>)
    requires
        offset >= 1,
    ensures
        texts(out@) == transpositions(password@, offset as nat),
        offset >= password@.len() ==> out.len() == 0,
        offset < password@.len() ==> out.len() == password@.len() - offset,
{
    let word = to_chars(password);
    let list = transposed_words(&word, offset);
    let out = to_texts(&list);
    assert(texts(out@).len() == out.len());
    out
}

/// The candidates for `password`, each once, in ascending order: the
/// password, what up to `max_distance` edits reach from it, and one swap of
/// each of those at every gap from 1 to the smaller of
/// `transposition_distance` and 3.
pub fn generate_variations(
    password: &str,
    max_distance: usize,
    transposition_distance: usize,
) -> (out: Vec<String>)
    ensures
        ascending(texts(out@)),
        texts(out@).no_duplicates(),
        texts(out@).to_set() == variations(
            password@,
            max_distance as nat,
            transposition_distance as nat,
        ),
        texts(out@) == generated(password@, max_distance as nat, transposition_distance as nat),
        variations(password@, max_distance as nat, transposition_distance as nat).finite(),
        out.len() == variations(
            password@,
            max_distance as nat,
            transposition_distance as nat,
        ).len(),
{
    let word = to_chars(password);
    let set = variation_words(&word, max_distance, transposition_distance);
    let out = to_texts(&set);
    proof {
        let d = max_distance as nat;
        let t = transposition_distance as nat;
        assert(is_generated(texts(out@), password@, d, t));
        lemma_ascending_no_duplicates(texts(out@));
        texts(out@).unique_seq_to_set();
        seq_to_set_is_finite(texts(out@));
        assert(texts(out@).len() == out.len());
        lemma_ascending_unique(texts(out@), generated(password@, d, t));
    }
    out
}

/// Where every character of `s` belongs to the alphabet, each position
/// admits one replacement fewer than the alphabet has characters.
pub proof fn lemma_substitution_count(s: Seq<char>)
    requires
        forall|i: int| 0 <= i < s.len() ==> in_alphabet(#[trigger] s[i]),
    ensures
        substitution_count(s) == s.len() * (ALPHABET_SIZE - 1),
    decreases s.len(),
{
    if s.len() > 0 {
        let head = s.drop_last();
        assert forall|i: int| 0 <= i < head.len() implies in_alphabet(#[trigger] head[i]) by {
            assert(head[i] == s[i]);
        }
        lemma_substitution_count(head);
        assert(in_alphabet(s[s.len() - 1]));
        assert((s.len() - 1) * 93 + 93 == s.len() * 93) by (nonlinear_arith);
    }
}

/// For a word of `n` characters of the alphabet, the candidates written
/// down before repeats are dropped number `n * (A - 1) + n + (n + 1) * A`,
/// with `A` the size of the alphabet:
/// the substitutions, the deletions and the insertions.
pub proof fn lemma_raw_count(s: Seq<char>)
    requires
        forall|i: int| 0 <= i < s.len() ==> in_alphabet(#[trigger] s[i]),
    ensures
        raw_count(s) == s.len() * (ALPHABET_SIZE - 1) + s.len() + (s.len() + 1) * ALPHABET_SIZE,
{
    lemma_substitution_count(s);
}

/// One edit away from the empty word stand the one-character words of the
/// alphabet and nothing else: nothing can be replaced or removed.
pub proof fn lemma_expansion_of_empty(t: Seq<char>)
    ensures
        expansion(Seq::<char>::empty()).contains(t) <==> t.len() == 1 && in_alphabet(t[0]),
{
    let e = Seq::<char>::empty();
    if t.len() == 1 && in_alphabet(t[0]) {
        assert(t =~= e.insert(0, t[0]));
        assert(is_insertion(e, t));
    }
    if is_insertion(e, t) {
        let (i, c) = choose|i: int, c: char|
            0 <= i <= e.len() && in_alphabet(c) && t == #[trigger] e.insert(i, c);
        assert(t[0] == c);
    }
}

/// The first level is what one edit reaches from the word itself.
pub proof fn lemma_first_level_is_expansion(s: Seq<char>)
    ensures
        frontier(s, 1) == expansion(s),
{
    assert(frontier(s, 0).contains(s));
    assert(frontier(s, 1) =~= expansion(s));
}

/// What fewer edits reach, more edits reach too.
pub proof fn lemma_reachable_grows(s: Seq<char>, fewer: nat, more: nat)
    requires
        fewer <= more,
    ensures
        reachable(s, fewer).subset_of(reachable(s, more)),
    decreases more,
{
    if fewer < more {
        lemma_reachable_grows(s, fewer, (more - 1) as nat);
    }
}

/// The candidates always hold the word itself.
pub proof fn lemma_variations_hold_original(s: Seq<char>, d: nat, transposition_distance: nat)
    ensures
        variations(s, d, transposition_distance).contains(s),
{
    lemma_reachable_grows(s, 0, d);
}

/// With a distance of at least 1, the candidates hold every word one edit
/// away from the original.
pub proof fn lemma_variations_hold_expansion(s: Seq<char>, d: nat, transposition_distance: nat)
    requires
        d >= 1,
    ensures
        expansion(s).subset_of(variations(s, d, transposition_distance)),
{
    lemma_reachable_grows(s, 1, d);
    assert(frontier(s, 0).contains(s));
    assert forall|t: Seq<char>| expansion(s).contains(t) implies reachable(s, 1).contains(t) by {
        assert(one_edit(s, t));
        assert(frontier(s, 1).contains(t));
    }
}

/// With transposition distance 0 nothing is swapped: the candidates are
/// what the edits reach.
pub proof fn lemma_no_swaps_at_zero(s: Seq<char>, d: nat)
    ensures
        variations(s, d, 0) == reachable(s, d),
{
    assert(swaps(reachable(s, d), 0) =~= Set::empty());
    assert(variations(s, d, 0) =~= reachable(s, d));
}

/// Transposition distances of 3 and more give the same candidates: no gap
/// beyond 3 is used.
pub proof fn lemma_gap_is_capped(s: Seq<char>, d: nat, transposition_distance: nat)
    requires
        transposition_distance >= MAX_SWAP_GAP,
    ensures
        variations(s, d, transposition_distance) == variations(s, d, MAX_SWAP_GAP as nat),
{
}

/// A larger transposition distance never takes a candidate away.
pub proof fn lemma_swaps_grow(s: Seq<char>, d: nat, smaller: nat, larger: nat)
    requires
        smaller <= larger,
    ensures
        variations(s, d, smaller).subset_of(variations(s, d, larger)),
{
    let base = reachable(s, d);
    assert forall|t: Seq<char>| swaps(base, max_gap(smaller)).contains(t) implies swaps(
        base,
        max_gap(larger),
    ).contains(t) by {
        let (u, g) = choose|u: Seq<char>, g: nat|
            base.contains(u) && 1 <= g <= max_gap(smaller) && #[trigger] transpositions(
                u,
                g,
            ).contains(t);
        assert(transpositions(u, g).contains(t));
    }
}

/// Going level by level, with gaps from 1 to the smaller of the level and
/// 3 at each, uses the gaps from 1 to the smaller of the last level and 3.
pub proof fn lemma_gaps_over_levels(transposition_distance: nat, gap: nat)
    ensures
        (exists|level: nat|
            1 <= level <= transposition_distance && 1 <= gap <= #[trigger] max_gap(level)) <==> 1
            <= gap <= max_gap(transposition_distance),
{
    if 1 <= gap <= max_gap(transposition_distance) {
        assert(1 <= transposition_distance && gap <= max_gap(transposition_distance));
    }
}

/// The same input always gives the same output: an ascending list is fixed
/// by its members, so two lists that both meet what `generate_variations`
/// ensures for one input are equal, entry by entry.
pub proof fn lemma_generate_is_determined(
    s: Seq<char>,
    d: nat,
    transposition_distance: nat,
    first: Seq<Seq<char>>,
    second: Seq<Seq<char>>,
)
    requires
        ascending(first),
        first.to_set() == variations(s, d, transposition_distance),
        ascending(second),
        second.to_set() == variations(s, d, transposition_distance),
    ensures
        first == second,
{
    lemma_ascending_unique(first, second);
}

/// An edit changes the length by at most one, a swap not at all: a
/// candidate is at most `d` characters shorter or longer than the word.
pub proof fn lemma_length_stays_close(
    s: Seq<char>,
    d: nat,
    transposition_distance: nat,
    w: Seq<char>,
)
    requires
        variations(s, d, transposition_distance).contains(w),
    ensures
        s.len() - d <= w.len() <= s.len() + d,
{
    let base = reachable(s, d);
    if base.contains(w) {
        lemma_reachable_length(s, d, w);
    } else {
        let (u, g) = choose|u: Seq<char>, g: nat|
            base.contains(u) && 1 <= g <= max_gap(transposition_distance)
                && #[trigger] transpositions(u, g).contains(w);
        lemma_reachable_length(s, d, u);
        let i = choose|i: int| 0 <= i < transpositions(u, g).len() && transpositions(u, g)[i] == w;
        assert(w == swapped(u, i, g as int));
    }
}

/// What exactly `d` edits reach is at most `d` characters shorter or longer.
pub proof fn lemma_frontier_length(s: Seq<char>, d: nat, w: Seq<char>)
    requires
        frontier(s, d).contains(w),
    ensures
        s.len() - d <= w.len() <= s.len() + d,
    decreases d,
{
    if d > 0 {
        let u = choose|u: Seq<char>|
            frontier(s, (d - 1) as nat).contains(u) && #[trigger] one_edit(u, w);
        lemma_frontier_length(s, (d - 1) as nat, u);
        if is_substitution(u, w) {
            let (i, c) = choose|i: int, c: char|
                0 <= i < u.len() && in_alphabet(c) && c != u[i] && w == #[trigger] u.update(i, c);
        } else if is_deletion(u, w) {
            let i = choose|i: int| 0 <= i < u.len() && w == #[trigger] u.remove(i);
        } else {
            let (i, c) = choose|i: int, c: char|
                0 <= i <= u.len() && in_alphabet(c) && w == #[trigger] u.insert(i, c);
        }
    }
}

/// What at most `d` edits reach is at most `d` characters shorter or longer.
pub proof fn lemma_reachable_length(s: Seq<char>, d: nat, w: Seq<char>)
    requires
        reachable(s, d).contains(w),
    ensures
        s.len() - d <= w.len() <= s.len() + d,
    decreases d,
{
    if d > 0 {
        if frontier(s, d).contains(w) {
            lemma_frontier_length(s, d, w);
        } else {
            lemma_reachable_length(s, (d - 1) as nat, w);
        }
    }
}

} // verus!
