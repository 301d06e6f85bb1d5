//! Dictionary order on words, and sets of words kept as strictly ascending
//! vectors: the order makes a set's representation unique.

use vstd::prelude::*;
use vstd::seq_lib::seq_to_set_distributes_over_add;

verus! {

/// The words of `v` as sequences of characters, in the order of `v`.
pub open spec fn words(v: Seq<Vec<char>>) -> Seq<Seq<char>> {
    Seq::new(v.len(), |k: int| v[k]@)
}

/// `a` and `b` agree on their first `k` characters, and there `a` ends while
/// `b` goes on, or `a` has the smaller character.
pub open spec fn precedes_at(a: Seq<char>, b: Seq<char>, k: int) -> bool {
    &&& 0 <= k <= a.len()
    &&& k < b.len()
    &&& forall|j: int| 0 <= j < k ==> a[j] == b[j]
    &&& (k < a.len() ==> a[k] < b[k])
}

/// `a` comes strictly before `b` in dictionary order by code point.
pub open spec fn precedes(a: Seq<char>, b: Seq<char>) -> bool {
    exists|k: int| precedes_at(a, b, k)
}

/// Every word comes strictly before each later one.
pub open spec fn ascending(s: Seq<Seq<char>>) -> bool {
    forall|i: int, j: int| 0 <= i < j < s.len() ==> precedes(#[trigger] s[i], #[trigger] s[j])
}

/// No word comes before itself.
pub proof fn lemma_precedes_irreflexive(a: Seq<char>)
    ensures
        !precedes(a, a),
{
}

/// Dictionary order is transitive.
pub proof fn lemma_precedes_transitive(a: Seq<char>, b: Seq<char>, c: Seq<char>)
    requires
        precedes(a, b),
        precedes(b, c),
    ensures
        precedes(a, c),
{
    let k1 = choose|k: int| precedes_at(a, b, k);
    let k2 = choose|k: int| precedes_at(b, c, k);
    let k = if k1 < k2 { k1 } else { k2 };
    assert(precedes_at(a, c, k));
}

/// An ascending sequence holds no word twice.
pub proof fn lemma_ascending_no_duplicates(s: Seq<Seq<char>>)
    requires
        ascending(s),
    ensures
        s.no_duplicates(),
{
    assert forall|i: int, j: int| 0 <= i < s.len() && 0 <= j < s.len() && i != j implies s[i]
        != s[j] by {
        lemma_precedes_irreflexive(s[i]);
        if i < j {
            assert(precedes(s[i], s[j]));
        } else {
            assert(precedes(s[j], s[i]));
        }
    }
}

/// Two ascending sequences with the same members are the same sequence.
pub proof fn lemma_ascending_unique(s: Seq<Seq<char>>, t: Seq<Seq<char>>)
    requires
        ascending(s),
        ascending(t),
        s.to_set() == t.to_set(),
    ensures
        s == t,
    decreases s.len(),
{
    if s.len() == 0 {
        if t.len() > 0 {
            assert(t.contains(t[0]));
            assert(t.to_set().contains(t[0]));
            assert(s.contains(t[0]));
        }
        assert(s =~= t);
    } else {
        assert(s.contains(s[0]));
        assert(s.to_set().contains(s[0]));
        assert(t.contains(s[0]));
        let m = choose|m: int| 0 <= m < t.len() && t[m] == s[0];
        assert(t.contains(t[0]));
        assert(t.to_set().contains(t[0]));
        assert(s.contains(t[0]));
        let n = choose|n: int| 0 <= n < s.len() && s[n] == t[0];
        lemma_precedes_irreflexive(s[0]);
        if m > 0 {
            assert(precedes(t[0], t[m]));
            if n > 0 {
                assert(precedes(s[0], s[n]));
                lemma_precedes_transitive(s[0], t[0], s[0]);
            }
        }
        assert(s[0] == t[0]);
        let s1 = s.skip(1);
        let t1 = t.skip(1);
        assert(ascending(s1)) by {
            assert forall|i: int, j: int| 0 <= i < j < s1.len() implies precedes(
                #[trigger] s1[i],
                #[trigger] s1[j],
            ) by {
                assert(precedes(s[i + 1], s[j + 1]));
            }
        }
        assert(ascending(t1)) by {
            assert forall|i: int, j: int| 0 <= i < j < t1.len() implies precedes(
                #[trigger] t1[i],
                #[trigger] t1[j],
            ) by {
                assert(precedes(t[i + 1], t[j + 1]));
            }
        }
        assert forall|w: Seq<char>| s1.to_set().contains(w) <==> t1.to_set().contains(w) by {
            if s1.contains(w) {
                let i = choose|i: int| 0 <= i < s1.len() && s1[i] == w;
                assert(precedes(s[0], s[i + 1]));
                assert(s.contains(s[i + 1]));
                assert(t.to_set().contains(w));
                let j = choose|j: int| 0 <= j < t.len() && t[j] == w;
                lemma_precedes_irreflexive(w);
                assert(j > 0);
                assert(t1[j - 1] == w);
            }
            if t1.contains(w) {
                let i = choose|i: int| 0 <= i < t1.len() && t1[i] == w;
                assert(precedes(t[0], t[i + 1]));
                assert(t.contains(t[i + 1]));
                assert(s.to_set().contains(w));
                let j = choose|j: int| 0 <= j < s.len() && s[j] == w;
                lemma_precedes_irreflexive(w);
                assert(j > 0);
                assert(s1[j - 1] == w);
            }
        }
        assert(s1.to_set() =~= t1.to_set());
        lemma_ascending_unique(s1, t1);
        assert(s =~= seq![s[0]] + s1);
        assert(t =~= seq![t[0]] + t1);
    }
}

/// How one word stands to another in dictionary order.
#[derive(Clone, Copy, Debug)]
pub enum Rank {
    Before,
    Same,
    After,
}

/// Where `a` stands to `b` in dictionary order.
pub fn rank(a: &Vec<char>, b: &Vec<char>) -> (r: Rank)
    ensures
        r is Before <==> precedes(a@, b@),
        r is Same <==> a@ == b@,
        r is After <==> precedes(b@, a@),
{
    proof {
        lemma_precedes_irreflexive(a@);
        if precedes(a@, b@) && precedes(b@, a@) {
            lemma_precedes_transitive(a@, b@, a@);
        }
    }
    let mut k: usize = 0;
    while k < a.len() && k < b.len()
        invariant
            k <= a.len(),
            k <= b.len(),
            forall|j: int| 0 <= j < k ==> a@[j] == b@[j],
        decreases a.len() - k,
    {
        let x: char = a[k];
        let y: char = b[k];
        if x < y {
            assert(precedes_at(a@, b@, k as int));
            return Rank::Before;
        }
        if y < x {
            assert(precedes_at(b@, a@, k as int));
            return Rank::After;
        }
        k += 1;
    }
    if k < b.len() {
        assert(precedes_at(a@, b@, k as int));
        Rank::Before
    } else if k < a.len() {
        assert(precedes_at(b@, a@, k as int));
        Rank::After
    } else {
        assert(a@ =~= b@);
        Rank::Same
    }
}

/// A fresh vector with the characters of `w`.
pub fn copy_word(w: &Vec<char>) -> (out: Vec<char>)
    ensures
        out@ == w@,
{
    let out = w.clone();
    assert(out@ =~= w@);
    out
}

/// Appends `w` to `v`.
pub fn push_word(v: &mut Vec<Vec<char>>, w: Vec<char>)
    ensures
        words(final(v)@) == words(old(v)@).push(w@),
        words(final(v)@).to_set() == words(old(v)@).to_set().insert(w@),
        final(v).len() == old(v).len() + 1,
{
    v.push(w);
    proof {
        assert(words(v@) =~= words(old(v)@).push(w@));
        words(old(v)@).lemma_push_to_set_commute(w@);
    }
}

/// The union of two sets of words, each given and returned in ascending order.
pub fn merge_union(a: &Vec<Vec<char>>, b: &Vec<Vec<char>>) -> (out: Vec<Vec<char>>)
    requires
        ascending(words(a@)),
        ascending(words(b@)),
    ensures
        ascending(words(out@)),
        words(out@).to_set() == words(a@).to_set().union(words(b@).to_set()),
{
    let mut out: Vec<Vec<char>> = Vec::new();
    let mut i: usize = 0;
    let mut j: usize = 0;
    let ghost wa = words(a@);
    let ghost wb = words(b@);
    assert(wa.take(0).to_set() =~= Set::empty());
    assert(wb.take(0).to_set() =~= Set::empty());
    assert(words(out@).to_set() =~= Set::empty());
    while i < a.len() || j < b.len()
        invariant
            i <= a.len(),
            j <= b.len(),
            wa == words(a@),
            wb == words(b@),
            ascending(wa),
            ascending(wb),
            ascending(words(out@)),
            forall|k: int|
                0 <= k < out.len() && i < a.len() ==> precedes(#[trigger] words(out@)[k], wa[i as int]),
            forall|k: int|
                0 <= k < out.len() && j < b.len() ==> precedes(#[trigger] words(out@)[k], wb[j as int]),
            words(out@).to_set() == wa.take(i as int).to_set().union(wb.take(j as int).to_set()),
        decreases (a.len() - i) + (b.len() - j),
    {
        let ghost before = words(out@);
        let take_a: bool;
        let take_b: bool;
        if i >= a.len() {
            take_a = false;
            take_b = true;
        } else if j >= b.len() {
            take_a = true;
            take_b = false;
        } else {
            match rank(&a[i], &b[j]) {
                Rank::Before => {
                    take_a = true;
                    take_b = false;
                },
                Rank::Same => {
                    take_a = true;
                    take_b = true;
                },
                Rank::After => {
                    take_a = false;
                    take_b = true;
                },
            }
        }
        let ghost x = if take_a { wa[i as int] } else { wb[j as int] };
        let w = if take_a { copy_word(&a[i]) } else { copy_word(&b[j]) };
        assert(w@ == x);
        push_word(&mut out, w);
        assert(ascending(words(out@)));
        proof {
            if take_a {
                assert(wa.take(i + 1) =~= wa.take(i as int).push(x));
                wa.take(i as int).lemma_push_to_set_commute(x);
                if i + 1 < a.len() {
                    assert(precedes(wa[i as int], wa[i + 1]));
                    assert forall|k: int| 0 <= k < out.len() implies precedes(
                        #[trigger] words(out@)[k],
                        wa[i + 1],
                    ) by {
                        if k < before.len() {
                            assert(words(out@)[k] == before[k]);
                            lemma_precedes_transitive(before[k], wa[i as int], wa[i + 1]);
                        }
                    }
                }
            }
            if take_b {
                assert(wb.take(j + 1) =~= wb.take(j as int).push(x));
                wb.take(j as int).lemma_push_to_set_commute(x);
                if j + 1 < b.len() {
                    assert(precedes(wb[j as int], wb[j + 1]));
                    assert forall|k: int| 0 <= k < out.len() implies precedes(
                        #[trigger] words(out@)[k],
                        wb[j + 1],
                    ) by {
                        if k < before.len() {
                            assert(words(out@)[k] == before[k]);
                            lemma_precedes_transitive(before[k], wb[j as int], wb[j + 1]);
                        }
                    }
                }
            }
            if take_a && !take_b && j < b.len() {
                assert forall|k: int| 0 <= k < out.len() implies precedes(
                    #[trigger] words(out@)[k],
                    wb[j as int],
                ) by {
                    if k < before.len() {
                        assert(words(out@)[k] == before[k]);
                    }
                }
            }
            if take_b && !take_a && i < a.len() {
                assert forall|k: int| 0 <= k < out.len() implies precedes(
                    #[trigger] words(out@)[k],
                    wa[i as int],
                ) by {
                    if k < before.len() {
                        assert(words(out@)[k] == before[k]);
                    }
                }
            }
        }
        if take_a {
            i += 1;
        }
        if take_b {
            j += 1;
        }
    }
    assert(wa.take(i as int) =~= wa);
    assert(wb.take(j as int) =~= wb);
    out
}

/// The set of the words `raw[lo..hi]`, in ascending order.
pub fn sorted_range(raw: &Vec<Vec<char>>, lo: usize, hi: usize) -> (out: Vec<Vec<char>>)
    requires
        lo <= hi <= raw.len(),
    ensures
        ascending(words(out@)),
        words(out@).to_set() == words(raw@).subrange(lo as int, hi as int).to_set(),
    decreases hi - lo,
{
    let ghost part = words(raw@).subrange(lo as int, hi as int);
    if hi - lo == 0 {
        let out: Vec<Vec<char>> = Vec::new();
        assert(words(out@).to_set() =~= part.to_set());
        out
    } else if hi - lo == 1 {
        let mut out: Vec<Vec<char>> = Vec::new();
        assert(words(out@) =~= Seq::empty());
        push_word(&mut out, copy_word(&raw[lo]));
        assert(part =~= Seq::<Seq<char>>::empty().push(raw[lo as int]@));
        out
    } else {
        let mid: usize = lo + (hi - lo) / 2;
        let left = sorted_range(raw, lo, mid);
        let right = sorted_range(raw, mid, hi);
        proof {
            let l = words(raw@).subrange(lo as int, mid as int);
            let r = words(raw@).subrange(mid as int, hi as int);
            assert(part =~= l + r);
            seq_to_set_distributes_over_add(l, r);
        }
        merge_union(&left, &right)
    }
}

/// The set of the words of `raw`, in ascending order.
pub fn sorted_set(raw: &Vec<Vec<char>>) -> (out: Vec<Vec<char>>)
    ensures
        ascending(words(out@)),
        words(out@).to_set() == words(raw@).to_set(),
{
    assert(words(raw@).subrange(0, raw.len() as int) =~= words(raw@));
    sorted_range(raw, 0, raw.len())
}

} // verus!
