//! Sums over sequences of (major, minor, value) triplets.
use vstd::prelude::*;

verus! {

pub type Triplet = (usize, usize, i64);

/// `f(s[0]) + ... + f(s[len - 1])`.
pub open spec fn seq_sum(s: Seq<Triplet>, f: spec_fn(Triplet) -> int) -> int
    decreases s.len(),
{
    if s.len() == 0 {
        0
    } else {
        seq_sum(s.drop_last(), f) + f(s.last())
    }
}

/// The value of a triplet at key (`k`, `m`), zero elsewhere.
pub open spec fn key_term(k: int, m: int) -> spec_fn(Triplet) -> int {
    |t: Triplet| if t.0 == k && t.1 == m { t.2 as int } else { 0 }
}

/// The positive values at key (`k`, `m`).
pub open spec fn pos_term(k: int, m: int) -> spec_fn(Triplet) -> int {
    |t: Triplet| if t.0 == k && t.1 == m && t.2 > 0 { t.2 as int } else { 0 }
}

/// The negative values at key (`k`, `m`).
pub open spec fn neg_term(k: int, m: int) -> spec_fn(Triplet) -> int {
    |t: Triplet| if t.0 == k && t.1 == m && t.2 < 0 { t.2 as int } else { 0 }
}

/// The triplet with its two indices exchanged.
pub open spec fn swap(t: Triplet) -> Triplet {
    (t.1, t.0, t.2)
}

pub proof fn lemma_sum_take_step(s: Seq<Triplet>, f: spec_fn(Triplet) -> int, i: int)
    requires
        0 <= i < s.len(),
    ensures
        seq_sum(s.take(i + 1), f) == seq_sum(s.take(i), f) + f(s[i]),
{
    assert(s.take(i + 1).drop_last() =~= s.take(i));
}

pub proof fn lemma_sum_append(a: Seq<Triplet>, b: Seq<Triplet>, f: spec_fn(Triplet) -> int)
    ensures
        seq_sum(a + b, f) == seq_sum(a, f) + seq_sum(b, f),
    decreases b.len(),
{
    if b.len() == 0 {
        assert(a + b =~= a);
    } else {
        assert((a + b).drop_last() =~= a + b.drop_last());
        lemma_sum_append(a, b.drop_last(), f);
    }
}

pub proof fn lemma_sum_remove(s: Seq<Triplet>, i: int, f: spec_fn(Triplet) -> int)
    requires
        0 <= i < s.len(),
    ensures
        seq_sum(s, f) == seq_sum(s.remove(i), f) + f(s[i]),
{
    let a = s.take(i);
    let b = s.skip(i + 1);
    assert(s =~= (a + seq![s[i]]) + b);
    assert(s.remove(i) =~= a + b);
    lemma_sum_append(a + seq![s[i]], b, f);
    lemma_sum_append(a, seq![s[i]], f);
    lemma_sum_append(a, b, f);
    assert(seq![s[i]].drop_last() =~= Seq::<Triplet>::empty());
    let one = seq![s[i]];
    assert(one.drop_last() =~= Seq::<Triplet>::empty());
    assert(seq_sum(one.drop_last(), f) == 0);
    assert(seq_sum(one, f) == f(s[i]));
}

/// Sums do not depend on the order of the elements.
pub proof fn lemma_sum_permutation(s: Seq<Triplet>, t: Seq<Triplet>, f: spec_fn(Triplet) -> int)
    requires
        s.to_multiset() == t.to_multiset(),
    ensures
        seq_sum(s, f) == seq_sum(t, f),
    decreases s.len(),
{
    broadcast use vstd::seq_lib::group_to_multiset_ensures;

    if s.len() == 0 {
        s.to_multiset_ensures();
        t.to_multiset_ensures();
        assert(t.len() == 0);
    } else {
        let x = s.last();
        let d = s.drop_last();
        assert(s =~= d.push(x));
        assert(s.contains(x));
        assert(t.to_multiset().count(x) > 0);
        assert(t.contains(x));
        let i = choose|i: int| 0 <= i < t.len() && t[i] == x;
        assert(d.to_multiset() =~= s.to_multiset().remove(x));
        assert(t.remove(i).to_multiset() =~= t.to_multiset().remove(x));
        lemma_sum_permutation(d, t.remove(i), f);
        lemma_sum_remove(t, i, f);
    }
}

pub proof fn lemma_sum_mono(s: Seq<Triplet>, f: spec_fn(Triplet) -> int, g: spec_fn(Triplet) -> int)
    requires
        forall|j: int| 0 <= j < s.len() ==> f(s[j]) <= g(s[j]),
    ensures
        seq_sum(s, f) <= seq_sum(s, g),
    decreases s.len(),
{
    if s.len() > 0 {
        lemma_sum_mono(s.drop_last(), f, g);
    }
}

pub proof fn lemma_sum_nonneg(s: Seq<Triplet>, f: spec_fn(Triplet) -> int)
    requires
        forall|j: int| 0 <= j < s.len() ==> f(s[j]) >= 0,
    ensures
        seq_sum(s, f) >= 0,
    decreases s.len(),
{
    if s.len() > 0 {
        lemma_sum_nonneg(s.drop_last(), f);
    }
}

pub proof fn lemma_sum_nonpos(s: Seq<Triplet>, f: spec_fn(Triplet) -> int)
    requires
        forall|j: int| 0 <= j < s.len() ==> f(s[j]) <= 0,
    ensures
        seq_sum(s, f) <= 0,
    decreases s.len(),
{
    if s.len() > 0 {
        lemma_sum_nonpos(s.drop_last(), f);
    }
}

pub proof fn lemma_sum_zero(s: Seq<Triplet>, f: spec_fn(Triplet) -> int)
    requires
        forall|j: int| 0 <= j < s.len() ==> f(s[j]) == 0,
    ensures
        seq_sum(s, f) == 0,
{
    lemma_sum_nonneg(s, f);
    lemma_sum_nonpos(s, f);
}

/// A partial sum at one key lies between the key's negative and positive
/// totals over the whole sequence.
pub proof fn lemma_prefix_bounds(s: Seq<Triplet>, n: int, k: int, m: int)
    requires
        0 <= n <= s.len(),
    ensures
        seq_sum(s, neg_term(k, m)) <= seq_sum(s.take(n), key_term(k, m)) <= seq_sum(s, pos_term(k, m)),
{
    let a = s.take(n);
    let b = s.skip(n);
    assert(s =~= a + b);
    lemma_sum_append(a, b, pos_term(k, m));
    lemma_sum_append(a, b, neg_term(k, m));
    lemma_sum_nonneg(b, pos_term(k, m));
    lemma_sum_nonpos(b, neg_term(k, m));
    lemma_sum_mono(a, key_term(k, m), pos_term(k, m));
    lemma_sum_mono(a, neg_term(k, m), key_term(k, m));
}

/// Exchanging the indices of every triplet exchanges the key of each sum.
pub proof fn lemma_sum_swap(s: Seq<Triplet>, k: int, m: int)
    ensures
        seq_sum(s.map_values(|t: Triplet| swap(t)), key_term(m, k)) == seq_sum(s, key_term(k, m)),
        seq_sum(s.map_values(|t: Triplet| swap(t)), pos_term(m, k)) == seq_sum(s, pos_term(k, m)),
        seq_sum(s.map_values(|t: Triplet| swap(t)), neg_term(m, k)) == seq_sum(s, neg_term(k, m)),
    decreases s.len(),
{
    if s.len() > 0 {
        assert(s.map_values(|t: Triplet| swap(t)).drop_last() =~= s.drop_last().map_values(
            |t: Triplet| swap(t),
        ));
        lemma_sum_swap(s.drop_last(), k, m);
    }
}


/// `a` comes strictly before `b` in (major, minor) order.
pub open spec fn key_lt(a: Triplet, b: Triplet) -> bool {
    a.0 < b.0 || (a.0 == b.0 && a.1 < b.1)
}

pub open spec fn same_key(a: Triplet, b: Triplet) -> bool {
    a.0 == b.0 && a.1 == b.1
}

pub open spec fn key_le(a: Triplet, b: Triplet) -> bool {
    key_lt(a, b) || same_key(a, b)
}

/// The entries with (major, minor) in place of (row, col).
pub open spec fn keyed(entries: Seq<Triplet>, row_major: bool) -> Seq<Triplet> {
    if row_major {
        entries
    } else {
        entries.map_values(|t: Triplet| swap(t))
    }
}

/// Elements of two sequences with equal multisets are found in both.
pub proof fn lemma_permutation_contains(s: Seq<Triplet>, t: Seq<Triplet>, j: int) -> (i: int)
    requires
        s.to_multiset() == t.to_multiset(),
        0 <= j < s.len(),
    ensures
        0 <= i < t.len(),
        t[i] == s[j],
{
    broadcast use vstd::seq_lib::group_to_multiset_ensures;

    assert(s.contains(s[j]));
    assert(t.to_multiset().count(s[j]) > 0);
    assert(t.contains(s[j]));
    choose|i: int| 0 <= i < t.len() && t[i] == s[j]
}

} // verus!
