//! The orientation-free picture of compressed storage: `nmajor` lanes whose
//! minor indices are strictly increasing, and the lemmas that make it unique.
use vstd::prelude::*;

verus! {

/// Compressed storage as mathematics: lane `k` holds the positions
/// `offsets[k] .. offsets[k + 1]` of `indices` and `values`.
pub struct Lanes {
    pub nmajor: nat,
    pub nminor: nat,
    pub offsets: Seq<usize>,
    pub indices: Seq<usize>,
    pub values: Seq<i64>,
}

impl Lanes {
    pub open spec fn nnz(self) -> nat {
        self.indices.len()
    }

    pub open spec fn offsets_wf(self) -> bool {
        &&& self.offsets.len() == self.nmajor + 1
        &&& self.offsets[0] == 0
        &&& self.offsets[self.nmajor as int] == self.indices.len()
        &&& forall|i: int, j: int|
            0 <= i <= j <= self.nmajor ==> #[trigger] self.offsets[i] <= #[trigger] self.offsets[j]
    }

    /// The minor indices of lane `k` are strictly increasing.
    pub open spec fn lane_sorted(self, k: int) -> bool {
        forall|p: int, q: int|
            self.offsets[k] <= p < q < self.offsets[k + 1] ==> #[trigger] self.indices[p]
                < #[trigger] self.indices[q]
    }

    /// The invariants of the compressed format.
    pub open spec fn wf(self) -> bool {
        &&& self.indices.len() == self.values.len()
        &&& self.offsets_wf()
        &&& forall|p: int| 0 <= p < self.indices.len() ==> #[trigger] self.indices[p] < self.nminor
        &&& forall|k: int| 0 <= k < self.nmajor ==> #[trigger] self.lane_sorted(k)
    }

    pub open spec fn in_lane(self, k: int, p: int) -> bool {
        0 <= k < self.nmajor && self.offsets[k] <= p < self.offsets[k + 1]
    }

    /// Position `p` holds the entry of lane `k` at minor index `m`.
    pub open spec fn stores(self, k: int, m: int, p: int) -> bool {
        self.in_lane(k, p) && self.indices[p] == m
    }

    /// The explicitly stored value at (`k`, `m`), if there is one.
    pub open spec fn get(self, k: int, m: int) -> Option<i64> {
        if exists|p: int| self.stores(k, m, p) {
            Some(self.values[choose|p: int| self.stores(k, m, p)])
        } else {
            None
        }
    }

    /// The value at (`k`, `m`) with an absent entry read as zero.
    pub open spec fn value_at(self, k: int, m: int) -> int {
        match self.get(k, m) {
            Some(v) => v as int,
            None => 0,
        }
    }

    pub open spec fn lane(self, k: int) -> Seq<usize> {
        self.indices.subrange(self.offsets[k] as int, self.offsets[k + 1] as int)
    }

    /// No stored value is zero.
    pub open spec fn no_explicit_zeros(self) -> bool {
        forall|p: int| 0 <= p < self.values.len() ==> #[trigger] self.values[p] != 0
    }
}

/// A stored position determines the stored value.
pub proof fn lemma_get_stored(l: Lanes, k: int, m: int, p: int)
    requires
        l.wf(),
        l.stores(k, m, p),
    ensures
        l.get(k, m) == Some(l.values[p]),
{
    let q = choose|q: int| l.stores(k, m, q);
    assert(l.lane_sorted(k));
    if q < p {
        assert(l.indices[q] < l.indices[p]);
    } else if p < q {
        assert(l.indices[p] < l.indices[q]);
    }
}

/// Every stored position lies in exactly one lane.
pub proof fn lemma_lane_of(l: Lanes, p: int) -> (k: int)
    requires
        l.offsets_wf(),
        0 <= p < l.nnz(),
    ensures
        l.in_lane(k, p),
{
    find_lane(l, p, l.nmajor as int)
}

proof fn find_lane(l: Lanes, p: int, k: int) -> (r: int)
    requires
        l.offsets_wf(),
        0 <= k <= l.nmajor,
        0 <= p < l.offsets[k],
    ensures
        0 <= r < k,
        l.in_lane(r, p),
    decreases k,
{
    assert(l.offsets[0] <= l.offsets[k - 1]);
    if l.offsets[k - 1] <= p {
        k - 1
    } else {
        find_lane(l, p, k - 1)
    }
}

pub open spec fn strictly_increasing(s: Seq<usize>) -> bool {
    forall|i: int, j: int| 0 <= i < j < s.len() ==> #[trigger] s[i] < #[trigger] s[j]
}

/// Two strictly increasing sequences with the same elements are equal.
pub proof fn lemma_increasing_unique(s: Seq<usize>, t: Seq<usize>)
    requires
        strictly_increasing(s),
        strictly_increasing(t),
        forall|x: usize| s.contains(x) <==> t.contains(x),
    ensures
        s == t,
    decreases s.len() + t.len(),
{
    if s.len() == 0 {
        if t.len() > 0 {
            assert(t.contains(t[0]));
        }
        assert(s =~= t);
    } else {
        assert(s.contains(s[0]));
        assert(t.len() > 0);
        assert(t.contains(t[0]));
        let i = choose|i: int| 0 <= i < s.len() && s[i] == t[0];
        let j = choose|j: int| 0 <= j < t.len() && t[j] == s[0];
        if i > 0 {
            assert(s[0] < s[i]);
        }
        if j > 0 {
            assert(t[0] < t[j]);
        }
        assert(s[0] == t[0]);
        let s1 = s.drop_first();
        let t1 = t.drop_first();
        assert forall|x: usize| s1.contains(x) implies t1.contains(x) by {
            let a = choose|a: int| 0 <= a < s1.len() && s1[a] == x;
            assert(s.contains(x));
            assert(s[0] < s[a + 1]);
            let b = choose|b: int| 0 <= b < t.len() && t[b] == x;
            assert(b != 0);
            assert(t1[b - 1] == x);
        }
        assert forall|x: usize| t1.contains(x) implies s1.contains(x) by {
            let a = choose|a: int| 0 <= a < t1.len() && t1[a] == x;
            assert(t.contains(x));
            assert(t[0] < t[a + 1]);
            let b = choose|b: int| 0 <= b < s.len() && s[b] == x;
            assert(b != 0);
            assert(s1[b - 1] == x);
        }
        lemma_increasing_unique(s1, t1);
        assert(s =~= seq![s[0]] + s1);
        assert(t =~= seq![t[0]] + t1);
    }
}

/// Two well-formed layouts of equal dimensions that store the same entries
/// are the same layout.
pub proof fn lemma_lanes_unique(a: Lanes, b: Lanes)
    requires
        a.wf(),
        b.wf(),
        a.nmajor == b.nmajor,
        a.nminor == b.nminor,
        forall|k: int, m: int|
            0 <= k < a.nmajor && 0 <= m < a.nminor ==> #[trigger] a.get(k, m) == b.get(k, m),
    ensures
        a == b,
{
    assert forall|k: int| 0 <= k < a.nmajor implies #[trigger] a.lane(k) == b.lane(k) by {
        lemma_lane_same(a, b, k);
    }
    assert forall|k: int| 0 <= k <= a.nmajor implies a.offsets[k] == b.offsets[k] by {
        lemma_offsets_same(a, b, k);
    }
    assert(a.offsets =~= b.offsets);
    assert forall|p: int| 0 <= p < a.nnz() implies a.indices[p] == b.indices[p]
        && a.values[p] == b.values[p] by {
        let k = lemma_lane_of(a, p);
        assert(a.lane(k)[p - a.offsets[k]] == a.indices[p]);
        assert(b.lane(k)[p - b.offsets[k]] == b.indices[p]);
        let m = a.indices[p] as int;
        lemma_get_stored(a, k, m, p);
        lemma_get_stored(b, k, m, p);
    }
    assert(a.indices =~= b.indices);
    assert(a.values =~= b.values);
}

proof fn lemma_lane_same(a: Lanes, b: Lanes, k: int)
    requires
        a.wf(),
        b.wf(),
        a.nmajor == b.nmajor,
        a.nminor == b.nminor,
        forall|k: int, m: int|
            0 <= k < a.nmajor && 0 <= m < a.nminor ==> #[trigger] a.get(k, m) == b.get(k, m),
        0 <= k < a.nmajor,
    ensures
        a.lane(k) == b.lane(k),
{
    lemma_lane_increasing(a, k);
    lemma_lane_increasing(b, k);
    assert forall|x: usize| a.lane(k).contains(x) implies b.lane(k).contains(x) by {
        let i = choose|i: int| 0 <= i < a.lane(k).len() && a.lane(k)[i] == x;
        assert(a.stores(k, x as int, a.offsets[k] + i));
        assert(a.get(k, x as int) is Some);
        assert(b.get(k, x as int) is Some);
        let q = choose|q: int| b.stores(k, x as int, q);
        assert(b.lane(k)[q - b.offsets[k]] == x);
    }
    assert forall|x: usize| b.lane(k).contains(x) implies a.lane(k).contains(x) by {
        let i = choose|i: int| 0 <= i < b.lane(k).len() && b.lane(k)[i] == x;
        assert(b.stores(k, x as int, b.offsets[k] + i));
        assert(b.get(k, x as int) is Some);
        assert(a.get(k, x as int) is Some);
        let q = choose|q: int| a.stores(k, x as int, q);
        assert(a.lane(k)[q - a.offsets[k]] == x);
    }
    lemma_increasing_unique(a.lane(k), b.lane(k));
}

proof fn lemma_lane_increasing(a: Lanes, k: int)
    requires
        a.wf(),
        0 <= k < a.nmajor,
    ensures
        strictly_increasing(a.lane(k)),
{
    assert(a.lane_sorted(k));
    assert(a.offsets[k] <= a.offsets[k + 1] <= a.offsets[a.nmajor as int]);
    assert forall|i: int, j: int| 0 <= i < j < a.lane(k).len() implies #[trigger] a.lane(k)[i]
        < #[trigger] a.lane(k)[j] by {
        assert(a.indices[a.offsets[k] + i] < a.indices[a.offsets[k] + j]);
    }
}

proof fn lemma_offsets_same(a: Lanes, b: Lanes, k: int)
    requires
        a.offsets_wf(),
        b.offsets_wf(),
        a.nmajor == b.nmajor,
        forall|k: int| 0 <= k < a.nmajor ==> #[trigger] a.lane(k) == b.lane(k),
        0 <= k <= a.nmajor,
    ensures
        a.offsets[k] == b.offsets[k],
    decreases k,
{
    if k > 0 {
        lemma_offsets_same(a, b, k - 1);
        assert(a.lane(k - 1).len() == b.lane(k - 1).len());
        assert(a.offsets[k - 1] <= a.offsets[k]);
        assert(b.offsets[k - 1] <= b.offsets[k]);
    }
}

} // verus!
