//! Changing the orientation of compressed storage by bucket distribution.
use vstd::prelude::*;
use crate::lanes::{Lanes, lemma_get_stored};
use crate::offsets::{
    counts_to_offsets, count_eq, lemma_count_le_len, lemma_num_below_all, lemma_prefix_counts,
    lemma_prefix_sum_mono,
};
use crate::convert::zeros_usize;

verus! {

/// The layout with major and minor axes exchanged holds the same entries.
pub open spec fn is_transpose(t: Lanes, l: Lanes) -> bool {
    &&& t.nmajor == l.nminor
    &&& t.nminor == l.nmajor
    &&& forall|k: int, m: int|
        0 <= k < l.nmajor && 0 <= m < l.nminor ==> #[trigger] t.get(m, k) == l.get(k, m)
}

pub(crate) fn zeros_i64(n: usize) -> (r: Vec<i64>)
    ensures
        r@.len() == n,
{
    let mut r: Vec<i64> = Vec::new();
    let mut i: usize = 0;
    while i < n
        invariant
            i <= n,
            r@.len() == i,
        decreases n - i,
    {
        r.push(0);
        i = i + 1;
    }
    r
}

/// The lane that holds position `p`, searching forward from lane `k`.
pub(crate) fn lane_containing(offsets: &Vec<usize>, nmajor: usize, k: usize, p: usize) -> (r: usize)
    requires
        offsets@.len() == nmajor + 1,
        forall|i: int, j: int|
            0 <= i <= j <= nmajor ==> #[trigger] offsets@[i] <= #[trigger] offsets@[j],
        k < nmajor,
        offsets@[k as int] <= p < offsets@[nmajor as int],
    ensures
        k <= r < nmajor,
        offsets@[r as int] <= p < offsets@[r + 1],
{
    let mut r = k;
    while offsets[r + 1] <= p
        invariant
            offsets@.len() == nmajor + 1,
            forall|i: int, j: int|
                0 <= i <= j <= nmajor ==> #[trigger] offsets@[i] <= #[trigger] offsets@[j],
            k <= r < nmajor,
            offsets@[r as int] <= p < offsets@[nmajor as int],
        decreases nmajor - r,
    {
        r = r + 1;
    }
    r
}

/// Counts how many entries each minor index has.
fn minor_counts(indices: &Vec<usize>, nminor: usize) -> (counts: Vec<usize>)
    requires
        forall|p: int| 0 <= p < indices@.len() ==> #[trigger] indices@[p] < nminor,
    ensures
        counts@.len() == nminor,
        forall|m: int| 0 <= m < nminor ==> #[trigger] counts@[m] == count_eq(indices@, m),
{
    let mut counts = zeros_usize(nminor);
    let mut p: usize = 0;
    while p < indices.len()
        invariant
            p <= indices@.len(),
            counts@.len() == nminor,
            forall|q: int| 0 <= q < indices@.len() ==> #[trigger] indices@[q] < nminor,
            forall|m: int|
                0 <= m < nminor ==> #[trigger] counts@[m] == count_eq(indices@.take(p as int), m),
        decreases indices@.len() - p,
    {
        let m = indices[p];
        proof {
            assert(indices@.take(p + 1).drop_last() =~= indices@.take(p as int));
            lemma_count_le_len(indices@.take(p as int), m as int);
        }
        counts.set(m, counts[m] + 1);
        p = p + 1;
    }
    assert(indices@.take(indices@.len() as int) =~= indices@);
    counts
}

/// Redistributes the entries of `nmajor` lanes over `nminor` lanes: entry
/// (`k`, `m`) of the input becomes entry (`m`, `k`) of the output.
pub(crate) fn transpose_lanes(
    nmajor: usize,
    nminor: usize,
    offsets: &Vec<usize>,
    indices: &Vec<usize>,
    values: &Vec<i64>,
) -> (r: (Vec<usize>, Vec<usize>, Vec<i64>))
    requires
        (Lanes {
            nmajor: nmajor as nat,
            nminor: nminor as nat,
            offsets: offsets@,
            indices: indices@,
            values: values@,
        }).wf(),
    ensures
        ({
            let l = Lanes {
                nmajor: nmajor as nat,
                nminor: nminor as nat,
                offsets: offsets@,
                indices: indices@,
                values: values@,
            };
            let t = Lanes {
                nmajor: nminor as nat,
                nminor: nmajor as nat,
                offsets: r.0@,
                indices: r.1@,
                values: r.2@,
            };
            t.wf() && is_transpose(t, l)
        }),
{
    let ghost l = Lanes {
        nmajor: nmajor as nat,
        nminor: nminor as nat,
        offsets: offsets@,
        indices: indices@,
        values: values@,
    };
    let nnz = indices.len();
    let counts = minor_counts(indices, nminor);
    proof {
        lemma_num_below_all(indices@, nminor as int);
        lemma_prefix_counts(counts@, indices@, nminor as int);
    }
    let t_offsets = counts_to_offsets(&counts);
    proof {
        assert forall|m: int| 0 <= m < nminor implies #[trigger] t_offsets@[m + 1] == t_offsets@[m]
            + count_eq(indices@, m) by {}
        assert forall|i: int, j: int| 0 <= i <= j <= nminor implies #[trigger] t_offsets@[i]
            <= #[trigger] t_offsets@[j] by {
            lemma_prefix_sum_mono(counts@, i, j);
        }
    }
    let mut next = t_offsets.clone();
    let mut t_indices = zeros_usize(nnz);
    let mut t_values = zeros_i64(nnz);
    // `pos[p]` is where input position `p` went, `lane_of[p]` its input lane,
    // and `back[q]` the input position that filled output position `q`.
    let ghost mut pos: Seq<int> = Seq::empty();
    let ghost mut lane_of: Seq<int> = Seq::empty();
    let ghost mut back: Seq<int> = Seq::new(nnz as nat, |q: int| 0int);
    let mut k: usize = 0;
    let mut p: usize = 0;
    while p < nnz
        invariant
            l.wf(),
            l == (Lanes {
                nmajor: nmajor as nat,
                nminor: nminor as nat,
                offsets: offsets@,
                indices: indices@,
                values: values@,
            }),
            nnz == indices@.len(),
            p <= nnz,
            nmajor > 0 ==> k < nmajor,
            p < nnz ==> nmajor > 0 && offsets@[k as int] <= p,
            t_offsets@.len() == nminor + 1,
            t_offsets@[nminor as int] == nnz,
            forall|i: int, j: int|
                0 <= i <= j <= nminor ==> #[trigger] t_offsets@[i] <= #[trigger] t_offsets@[j],
            forall|m: int|
                0 <= m < nminor ==> #[trigger] t_offsets@[m + 1] == t_offsets@[m] + count_eq(
                    indices@,
                    m,
                ),
            next@.len() == nminor + 1,
            forall|m: int|
                0 <= m < nminor ==> #[trigger] next@[m] == t_offsets@[m] + count_eq(
                    indices@.take(p as int),
                    m,
                ),
            t_indices@.len() == nnz,
            t_values@.len() == nnz,
            pos.len() == p,
            lane_of.len() == p,
            back.len() == nnz,
            forall|q: int|
                0 <= q < p ==> #[trigger] l.in_lane(lane_of[q], q) && t_offsets@[indices@[q] as int]
                    <= pos[q] < next@[indices@[q] as int] && t_indices@[pos[q]] == lane_of[q]
                    && t_values@[pos[q]] == values@[q],
            forall|m: int, q: int|
                #![trigger t_offsets@[m], back[q]]
                0 <= m < nminor && t_offsets@[m] <= q < next@[m] ==> 0 <= back[q] < p
                    && pos[back[q]] == q && indices@[back[q]] == m,
            forall|m: int, q1: int, q2: int|
                #![trigger t_offsets@[m], t_indices@[q1], t_indices@[q2]]
                0 <= m < nminor && t_offsets@[m] <= q1 < q2 < next@[m] ==> t_indices@[q1]
                    < t_indices@[q2],
        decreases nnz - p,
    {
        let ghost old_next = next@;
        let ghost old_t_indices = t_indices@;
        k = lane_containing(offsets, nmajor, k, p);
        let m = indices[p];
        proof {
            assert(indices@.take(p + 1).drop_last() =~= indices@.take(p as int));
            lemma_count_le_len(indices@.take(p as int), m as int);
            lemma_count_le_len(indices@, m as int);
            assert(indices@.take(p as int) =~= indices@.subrange(0, p as int));
            lemma_count_prefix_le(indices@, p as int, m as int);
        }
        let q = next[m];
        assert(t_offsets@[m + 1] <= t_offsets@[nminor as int]);
        t_indices.set(q, k);
        t_values.set(q, values[p]);
        next.set(m, q + 1);
        proof {
            // Everything already in output lane `m` came from an earlier input lane.
            assert forall|q1: int| t_offsets@[m as int] <= q1 < q implies #[trigger] old_t_indices[q1]
                < k by {
                let p1 = back[q1];
                assert(l.in_lane(lane_of[p1], p1));
                if lane_of[p1] > k {
                    assert(offsets@[k + 1] <= offsets@[lane_of[p1]]);
                } else if lane_of[p1] == k {
                    assert(l.lane_sorted(k as int));
                    assert(indices@[p1] < indices@[p as int]);
                }
            }
            let old_lane_of = lane_of;
            lemma_count_take_mono(indices@, p as int);
            pos = pos.push(q as int);
            lane_of = lane_of.push(k as int);
            back = back.update(q as int, p as int);
            assert forall|q0: int| 0 <= q0 < p + 1 implies #[trigger] l.in_lane(lane_of[q0], q0)
                && t_offsets@[indices@[q0] as int] <= pos[q0] < next@[indices@[q0] as int]
                && t_indices@[pos[q0]] == lane_of[q0] && t_values@[pos[q0]] == values@[q0] by {
                if q0 < p {
                    assert(l.in_lane(old_lane_of[q0], q0));
                    let m0 = indices@[q0] as int;
                    assert(old_next[m0] <= t_offsets@[m0 + 1]);
                    if m0 != m {
                        assert(pos[q0] != q as int) by {
                            assert(t_offsets@[m0] <= pos[q0] < old_next[m0]);
                            if m0 < m {
                                assert(t_offsets@[m0 + 1] <= t_offsets@[m as int]);
                            } else {
                                assert(t_offsets@[m + 1] <= t_offsets@[m0]);
                            }
                        }
                    }
                }
            }
            assert forall|m1: int, q1: int|
                #![trigger t_offsets@[m1], back[q1]]
                0 <= m1 < nminor && t_offsets@[m1] <= q1 < next@[m1] implies 0 <= back[q1]
                < p + 1 && pos[back[q1]] == q1 && indices@[back[q1]] == m1 by {
                if q1 != q {
                    assert(old_next[m1] <= t_offsets@[m1 + 1]);
                    if m1 != m {
                        assert(q1 < old_next[m1]);
                    }
                } else {
                    if m1 != m {
                        if m1 < m {
                            assert(t_offsets@[m1 + 1] <= t_offsets@[m as int]);
                        } else {
                            assert(t_offsets@[m + 1] <= t_offsets@[m1]);
                        }
                    }
                }
            }
            assert forall|m1: int, q1: int, q2: int|
                #![trigger t_offsets@[m1], t_indices@[q1], t_indices@[q2]]
                0 <= m1 < nminor && t_offsets@[m1] <= q1 < q2 < next@[m1] implies t_indices@[q1]
                < t_indices@[q2] by {
                assert(old_next[m1] <= t_offsets@[m1 + 1]);
                if m1 == m {
                    if q2 == q {
                        assert(old_t_indices[q1] < k);
                    }
                } else {
                    if m1 < m {
                        assert(t_offsets@[m1 + 1] <= t_offsets@[m as int]);
                    } else {
                        assert(t_offsets@[m + 1] <= t_offsets@[m1]);
                    }
                }
            }
        }
        p = p + 1;
    }
    let ghost t = Lanes {
        nmajor: nminor as nat,
        nminor: nmajor as nat,
        offsets: t_offsets@,
        indices: t_indices@,
        values: t_values@,
    };
    proof {
        assert(indices@.take(nnz as int) =~= indices@);
        assert(t_offsets@[0] == 0) by {
            lemma_num_below_all(indices@, nminor as int);
        }
        assert(t.offsets_wf());
        assert forall|q: int| 0 <= q < nnz implies #[trigger] t_indices@[q] < nmajor by {
            let m = lemma_lane_of_filled(t_offsets@, nminor as int, q);
            let p1 = back[q];
            assert(l.in_lane(lane_of[p1], p1));
        }
        assert forall|m: int| 0 <= m < nminor implies #[trigger] t.lane_sorted(m) by {
            assert forall|q1: int, q2: int|
                t.offsets[m] <= q1 < q2 < t.offsets[m + 1] implies #[trigger] t.indices[q1]
                < #[trigger] t.indices[q2] by {
                assert(t_offsets@[m] <= q1 < q2 < next@[m]);
            }
        }
        assert(t.wf());
        assert forall|k1: int, m1: int|
            0 <= k1 < nmajor && 0 <= m1 < nminor implies #[trigger] t.get(m1, k1) == l.get(k1, m1) by {
            if exists|p1: int| l.stores(k1, m1, p1) {
                let p1 = choose|p1: int| l.stores(k1, m1, p1);
                assert(l.in_lane(lane_of[p1], p1));
                assert(lane_of[p1] == k1) by {
                    if lane_of[p1] < k1 {
                        assert(offsets@[lane_of[p1] + 1] <= offsets@[k1]);
                    } else if lane_of[p1] > k1 {
                        assert(offsets@[k1 + 1] <= offsets@[lane_of[p1]]);
                    }
                }
                assert(t.stores(m1, k1, pos[p1]));
                lemma_get_stored(l, k1, m1, p1);
                lemma_get_stored(t, m1, k1, pos[p1]);
            } else if exists|q: int| t.stores(m1, k1, q) {
                let q = choose|q: int| t.stores(m1, k1, q);
                assert(t_offsets@[m1] <= q < next@[m1]);
                let p1 = back[q];
                assert(l.in_lane(lane_of[p1], p1));
                assert(l.stores(k1, m1, p1));
            }
        }
    }
    (t_offsets, t_indices, t_values)
}

proof fn lemma_count_prefix_le(s: Seq<usize>, p: int, m: int)
    requires
        0 <= p < s.len(),
        s[p] == m,
    ensures
        count_eq(s.take(p), m) < count_eq(s, m),
    decreases s.len(),
{
    assert(s.take(p + 1).drop_last() =~= s.take(p));
    lemma_count_take_mono(s, p + 1);
}

proof fn lemma_count_take_mono(s: Seq<usize>, n: int)
    requires
        0 <= n <= s.len(),
    ensures
        forall|m: int| count_eq(#[trigger] s.take(n), m) <= count_eq(s, m),
    decreases s.len() - n,
{
    if n < s.len() {
        lemma_count_take_mono(s, n + 1);
        assert(s.take(n + 1).drop_last() =~= s.take(n));
    } else {
        assert(s.take(n) =~= s);
    }
}

/// Every position below the last offset lies in some lane.
proof fn lemma_lane_of_filled(offsets: Seq<usize>, n: int, q: int) -> (m: int)
    requires
        n >= 0,
        offsets.len() == n + 1,
        forall|i: int, j: int| 0 <= i <= j <= n ==> #[trigger] offsets[i] <= #[trigger] offsets[j],
        offsets[0] <= q < offsets[n],
    ensures
        0 <= m < n,
        offsets[m] <= q < offsets[m + 1],
    decreases n,
{
    assert(n > 0);
    if offsets[n - 1] <= q {
        n - 1
    } else {
        lemma_lane_of_filled(offsets.take(n), n - 1, q)
    }
}

} // verus!
