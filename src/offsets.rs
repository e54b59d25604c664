//! Turning per-lane occupancy counts into an offsets array.
use vstd::prelude::*;

verus! {

/// `counts[0] + ... + counts[k - 1]`.
pub open spec fn prefix_sum(counts: Seq<usize>, k: int) -> int
    decreases k,
{
    if k <= 0 || k > counts.len() {
        0
    } else {
        prefix_sum(counts, k - 1) + counts[k - 1]
    }
}

pub proof fn lemma_prefix_sum_mono(counts: Seq<usize>, i: int, j: int)
    requires
        0 <= i <= j <= counts.len(),
    ensures
        0 <= prefix_sum(counts, i) <= prefix_sum(counts, j),
    decreases j,
{
    if i < j {
        lemma_prefix_sum_mono(counts, i, j - 1);
    } else if i > 0 {
        lemma_prefix_sum_mono(counts, i - 1, i - 1);
    }
}

/// Builds the `counts.len() + 1` offsets of lanes holding `counts[k]` entries
/// each, by a running sum that starts at zero.
pub fn counts_to_offsets(counts: &Vec<usize>) -> (offsets: Vec<usize>)
    requires
        prefix_sum(counts@, counts@.len() as int) <= usize::MAX,
    ensures
        offsets@.len() == counts@.len() + 1,
        forall|k: int| 0 <= k <= counts@.len() ==> #[trigger] offsets@[k] == prefix_sum(counts@, k),
{
    let mut offsets: Vec<usize> = Vec::new();
    let mut total: usize = 0;
    offsets.push(0);
    let mut k: usize = 0;
    while k < counts.len()
        invariant
            k <= counts@.len(),
            offsets@.len() == k + 1,
            total == prefix_sum(counts@, k as int),
            prefix_sum(counts@, counts@.len() as int) <= usize::MAX,
            forall|i: int| 0 <= i <= k ==> #[trigger] offsets@[i] == prefix_sum(counts@, i),
        decreases counts@.len() - k,
    {
        proof {
            lemma_prefix_sum_mono(counts@, k + 1, counts@.len() as int);
        }
        total = total + counts[k];
        offsets.push(total);
        k = k + 1;
    }
    offsets
}


/// How many elements of `m` equal `k`.
pub open spec fn count_eq(m: Seq<usize>, k: int) -> nat
    decreases m.len(),
{
    if m.len() == 0 {
        0
    } else {
        count_eq(m.drop_last(), k) + if m.last() == k { 1nat } else { 0nat }
    }
}

/// How many elements of `m` are below `k`.
pub open spec fn num_below(m: Seq<usize>, k: int) -> nat
    decreases m.len(),
{
    if m.len() == 0 {
        0
    } else {
        num_below(m.drop_last(), k) + if m.last() < k { 1nat } else { 0nat }
    }
}

pub open spec fn nondecreasing(m: Seq<usize>) -> bool {
    forall|i: int, j: int| 0 <= i <= j < m.len() ==> #[trigger] m[i] <= #[trigger] m[j]
}

pub proof fn lemma_count_le_len(m: Seq<usize>, k: int)
    ensures
        count_eq(m, k) <= m.len(),
        num_below(m, k) <= m.len(),
    decreases m.len(),
{
    if m.len() > 0 {
        lemma_count_le_len(m.drop_last(), k);
    }
}

pub proof fn lemma_num_below_step(m: Seq<usize>, k: int)
    ensures
        num_below(m, k + 1) == num_below(m, k) + count_eq(m, k),
    decreases m.len(),
{
    if m.len() > 0 {
        lemma_num_below_step(m.drop_last(), k);
    }
}

pub proof fn lemma_num_below_mono(m: Seq<usize>, j: int, k: int)
    requires
        j <= k,
    ensures
        num_below(m, j) <= num_below(m, k),
    decreases m.len(),
{
    if m.len() > 0 {
        lemma_num_below_mono(m.drop_last(), j, k);
    }
}

pub proof fn lemma_num_below_zero(m: Seq<usize>)
    ensures
        num_below(m, 0) == 0,
    decreases m.len(),
{
    if m.len() > 0 {
        lemma_num_below_zero(m.drop_last());
    }
}

pub proof fn lemma_num_below_all(m: Seq<usize>, k: int)
    requires
        forall|i: int| 0 <= i < m.len() ==> m[i] < k,
    ensures
        num_below(m, k) == m.len(),
    decreases m.len(),
{
    if m.len() > 0 {
        lemma_num_below_all(m.drop_last(), k);
    }
}

/// Summing per-value counts gives the number of elements below a bound.
pub proof fn lemma_prefix_counts(counts: Seq<usize>, m: Seq<usize>, k: int)
    requires
        forall|j: int| 0 <= j < counts.len() ==> #[trigger] counts[j] == count_eq(m, j),
        0 <= k <= counts.len(),
    ensures
        prefix_sum(counts, k) == num_below(m, k),
    decreases k,
{
    if k == 0 {
        lemma_num_below_zero(m);
    } else {
        lemma_prefix_counts(counts, m, k - 1);
        lemma_num_below_step(m, k - 1);
    }
}

/// In a nondecreasing sequence, the elements equal to `k` occupy exactly the
/// positions `num_below(m, k) .. num_below(m, k + 1)`.
pub proof fn lemma_sorted_position(m: Seq<usize>, p: int)
    requires
        nondecreasing(m),
        0 <= p < m.len(),
    ensures
        num_below(m, m[p] as int) <= p < num_below(m, m[p] + 1),
    decreases m.len(),
{
    let d = m.drop_last();
    let x = m.last();
    lemma_count_le_len(d, m[p] as int);
    if p < m.len() - 1 {
        assert(nondecreasing(d));
        lemma_sorted_position(d, p);
        assert(d[p] == m[p]);
        assert(m[p] <= x);
    } else {
        assert forall|i: int| 0 <= i < d.len() implies d[i] < x + 1 by {
            assert(m[i] <= m[p]);
        }
        lemma_num_below_all(d, x + 1);
    }
}

pub proof fn lemma_position_sorted(m: Seq<usize>, p: int, k: int)
    requires
        nondecreasing(m),
        0 <= p < m.len(),
        num_below(m, k) <= p < num_below(m, k + 1),
    ensures
        m[p] == k,
{
    lemma_sorted_position(m, p);
    if m[p] < k {
        lemma_num_below_mono(m, m[p] + 1, k);
    } else if m[p] > k {
        lemma_num_below_mono(m, k + 1, m[p] as int);
    }
}

} // verus!
