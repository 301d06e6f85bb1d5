//! From a request and its passwords to what is handed back: the candidates
//! of each password in turn, ordered by how much of each can be typed, or
//! their number.

use crate::config::Config;
use crate::generator::{generate_variations, generated};
use crate::ranking::{count_typeable_chars, typeable_count};
use crate::text::texts;
use vstd::prelude::*;

verus! {

/// Where a request takes its passwords from.
#[derive(Clone, Copy, Debug)]
pub enum Source {
    /// The one password the request names.
    Password,
    /// The lines of standard input.
    StandardInput,
    /// Nowhere: the request names no password and does not ask for input.
    Missing,
}

impl Config {
    /// Where the passwords come from: a named password goes before
    /// standard input.
    pub fn source(&self) -> (s: Source)
        ensures
            s is Password <==> self.password is Some,
            s is StandardInput <==> self.password is None && self.stdin,
            s is Missing <==> self.password is None && !self.stdin,
    {
        if self.password.is_some() {
            Source::Password
        } else if self.stdin {
            Source::StandardInput
        } else {
            Source::Missing
        }
    }
}

/// What one password contributes: itself where `keep_original` is set, then
/// its candidates.
pub open spec fn contribution(p: Seq<char>, keep_original: bool, d: nat, t: nat) -> Seq<Seq<char>> {
    if keep_original {
        seq![p] + generated(p, d, t)
    } else {
        generated(p, d, t)
    }
}

/// The contributions of the passwords, in the order of the passwords.
pub open spec fn emission(ps: Seq<Seq<char>>, keep_original: bool, d: nat, t: nat) -> Seq<Seq<char>>
    decreases ps.len(),
{
    if ps.len() == 0 {
        Seq::empty()
    } else {
        emission(ps.drop_last(), keep_original, d, t) + contribution(ps.last(), keep_original, d, t)
    }
}

/// The emission for a request.
pub open spec fn emission_for(ps: Seq<Seq<char>>, config: Config) -> Seq<Seq<char>> {
    emission(
        ps,
        config.include_original,
        config.max_distance as nat,
        config.transposition_distance as nat,
    )
}

/// The entries of `list` with `k` typeable characters, in the order of `list`.
pub open spec fn with_key(list: Seq<Seq<char>>, k: nat) -> Seq<Seq<char>> {
    list.filter(|entry: Seq<char>| typeable_count(entry) == k)
}

/// No entry has more typeable characters than a later one.
pub open spec fn ordered_by_key(list: Seq<Seq<char>>) -> bool {
    forall|i: int, j: int|
        0 <= i < j < list.len() ==> typeable_count(#[trigger] list[i]) <= typeable_count(
            #[trigger] list[j],
        )
}

/// `after` is `before` ordered by the number of typeable characters, entries
/// with the same number staying in the order they had.
pub open spec fn is_ordering_of(after: Seq<Seq<char>>, before: Seq<Seq<char>>) -> bool {
    &&& ordered_by_key(after)
    &&& forall|k: nat| #[trigger] with_key(after, k) == with_key(before, k)
}

/// More passwords never make the emission shorter.
pub proof fn lemma_emission_grows(ps: Seq<Seq<char>>, n: int, keep_original: bool, d: nat, t: nat)
    requires
        0 <= n <= ps.len(),
    ensures
        emission(ps.take(n), keep_original, d, t).len() <= emission(ps, keep_original, d, t).len(),
    decreases ps.len(),
{
    if n == ps.len() {
        assert(ps.take(n) =~= ps);
    } else {
        assert(ps.drop_last().take(n) =~= ps.take(n));
        lemma_emission_grows(ps.drop_last(), n, keep_original, d, t);
    }
}

/// The candidates of each password in turn, each password before its own
/// candidates where the request asks for originals.
pub fn emitted(passwords: &Vec<String>, config: &Config) -> (out: Vec<String>)
    ensures
        texts(out@) == emission_for(texts(passwords@), *config),
{
    let mut out: Vec<String> = Vec::new();
    let ghost ps = texts(passwords@);
    let mut i: usize = 0;
    assert(ps.take(0) =~= Seq::empty());
    assert(texts(out@) =~= Seq::empty());
    while i < passwords.len()
        invariant
            i <= passwords.len(),
            ps == texts(passwords@),
            texts(out@) == emission_for(ps.take(i as int), *config),
        decreases passwords.len() - i,
    {
        let ghost before = texts(out@);
        if config.include_original {
            out.push(passwords[i].clone());
            assert(texts(out@) =~= before + seq![ps[i as int]]);
        }
        let ghost middle = texts(out@);
        let mut more = generate_variations(
            passwords[i].as_str(),
            config.max_distance,
            config.transposition_distance,
        );
        proof {
            assert(texts(out@ + more@) =~= middle + texts(more@));
            assert(ps.take(i + 1).drop_last() =~= ps.take(i as int));
            assert(ps.take(i + 1).last() == ps[i as int]);
            assert(middle + texts(more@) =~= before + contribution(
                ps[i as int],
                config.include_original,
                config.max_distance as nat,
                config.transposition_distance as nat,
            ));
        }
        out.append(&mut more);
        i += 1;
    }
    assert(ps.take(i as int) =~= ps);
    out
}

/// `[T]::sort_by_key` with the number of typeable characters as the key.
/// Its documentation promises a stable sort: afterwards the keys ascend, and
/// the entries of each key are those that were there, in the order they had.
#[verifier::external_body]
fn sort_by_typeable(list: &mut Vec<String>)
    ensures
        is_ordering_of(texts(final(list)@), texts(old(list)@)),
{
    list.sort_by_key(|entry| count_typeable_chars(entry));
}

/// What a request hands back for its passwords: the emission, ordered by
/// the number of typeable characters, entries of the same number staying
/// in the order of the emission.
pub fn output_lines(passwords: &Vec<String>, config: &Config) -> (out: Vec<String>)
    ensures
        is_ordering_of(texts(out@), emission_for(texts(passwords@), *config)),
{
    let mut out = emitted(passwords, config);
    sort_by_typeable(&mut out);
    out
}

/// How many entries the emission for a request has, where a `u64` can hold
/// that number.
pub fn total_count(passwords: &Vec<String>, config: &Config) -> (total: Option<u64>)
    ensures
        emission_for(texts(passwords@), *config).len() <= u64::MAX ==> total == Some(
            emission_for(texts(passwords@), *config).len() as u64,
        ),
        emission_for(texts(passwords@), *config).len() > u64::MAX ==> total is None,
{
    let mut total: u64 = 0;
    let ghost ps = texts(passwords@);
    let mut i: usize = 0;
    assert(ps.take(0) =~= Seq::empty());
    while i < passwords.len()
        invariant
            i <= passwords.len(),
            ps == texts(passwords@),
            total == emission_for(ps.take(i as int), *config).len(),
        decreases passwords.len() - i,
    {
        let found = generate_variations(
            passwords[i].as_str(),
            config.max_distance,
            config.transposition_distance,
        );
        proof {
            assert(ps.take(i + 1).drop_last() =~= ps.take(i as int));
            assert(ps.take(i + 1).last() == ps[i as int]);
            assert(texts(found@).len() == found.len());
            lemma_emission_grows(
                ps,
                i + 1,
                config.include_original,
                config.max_distance as nat,
                config.transposition_distance as nat,
            );
        }
        let own: u64 = if config.include_original {
            1
        } else {
            0
        };
        let with_own: u64 = match total.checked_add(own) {
            Some(n) => n,
            None => { return None; },
        };
        total = match with_own.checked_add(found.len() as u64) {
            Some(n) => n,
            None => { return None; },
        };
        i += 1;
    }
    assert(ps.take(i as int) =~= ps);
    Some(total)
}

} // verus!
