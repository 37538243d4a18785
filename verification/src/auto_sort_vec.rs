//! A multiset of small non-negative integers with order-statistic queries, backed by a
//! segment tree of per-value counts.
use vstd::prelude::*;
use crate::segment_tree::{fold, SegmentTree, SumUsize};

verus! {

/// `s[lo] + ... + s[hi - 1]`.
pub open spec fn range_sum(s: Seq<usize>, lo: int, hi: int) -> int
    decreases hi - lo,
{
    if hi <= lo {
        0
    } else {
        range_sum(s, lo, hi - 1) + s[hi - 1]
    }
}

proof fn lemma_sum_split(s: Seq<usize>, lo: int, mid: int, hi: int)
    requires
        lo <= mid <= hi,
    ensures
        range_sum(s, lo, hi) == range_sum(s, lo, mid) + range_sum(s, mid, hi),
        range_sum(s, lo, mid) >= 0,
        range_sum(s, mid, hi) >= 0,
    decreases hi - mid,
{
    if hi > mid {
        lemma_sum_split(s, lo, mid, hi - 1);
    } else {
        lemma_sum_nonneg(s, lo, mid);
    }
}

proof fn lemma_sum_nonneg(s: Seq<usize>, lo: int, hi: int)
    ensures
        range_sum(s, lo, hi) >= 0,
    decreases hi - lo,
{
    if hi > lo {
        lemma_sum_nonneg(s, lo, hi - 1);
    }
}

/// Without overflow the wrapping fold is the plain sum.
proof fn lemma_fold_is_sum(s: Seq<usize>, lo: int, hi: int)
    requires
        lo < hi,
        range_sum(s, lo, hi) <= usize::MAX,
    ensures
        fold::<usize, SumUsize>(s, lo, hi) == range_sum(s, lo, hi),
    decreases hi - lo,
{
    if hi - lo > 1 {
        lemma_sum_nonneg(s, lo, hi - 1);
        lemma_fold_is_sum(s, lo, hi - 1);
    } else {
        assert(range_sum(s, lo, lo) == 0);
    }
}

/// The sorted multiset of values in `[0, max_val]`; `st` counts each value.
pub struct AutoSortVec {
    max_val: usize,
    st: SegmentTree<usize, SumUsize>,
}

impl AutoSortVec {
    /// The number of copies of each value `0..=max_val`.
    pub closed spec fn counts(&self) -> Seq<usize> {
        self.st@
    }

    /// The largest value the multiset can hold.
    pub closed spec fn spec_max_val(&self) -> nat {
        self.max_val as nat
    }

    /// The number of elements smaller than `v`.
    pub open spec fn rank(&self, v: int) -> int {
        range_sum(self.counts(), 0, v)
    }

    /// The number of elements.
    pub open spec fn total(&self) -> int {
        range_sum(self.counts(), 0, self.counts().len() as int)
    }

    /// The internal invariant.
    pub closed spec fn well_formed(&self) -> bool {
        &&& self.st.well_formed()
        &&& self.max_val < usize::MAX / 2
        &&& self.st@.len() == self.max_val + 1
        &&& range_sum(self.st@, 0, self.st@.len() as int) <= usize::MAX
    }

    proof fn lemma_query(&self, lo: int, hi: int)
        requires
            self.well_formed(),
            0 <= lo < hi <= self.counts().len(),
        ensures
            self.st.spec_query(lo, hi) == range_sum(self.counts(), lo, hi),
            range_sum(self.counts(), 0, hi) == range_sum(self.counts(), 0, lo) + range_sum(
                self.counts(),
                lo,
                hi,
            ),
            range_sum(self.counts(), 0, hi) <= self.total(),
    {
        let s = self.counts();
        lemma_sum_split(s, 0, lo, hi);
        lemma_sum_split(s, 0, hi, s.len() as int);
        lemma_sum_split(s, lo, hi, s.len() as int);
        lemma_fold_is_sum(s, lo, hi);
    }

    /// An empty multiset of values in `[0, max_val]`.
    pub fn new(max_val: usize) -> (r: Self)
        requires
            max_val < usize::MAX / 2,
        ensures
            r.well_formed(),
            r.spec_max_val() == max_val,
            r.counts() == Seq::new(max_val as nat + 1, |i: int| 0usize),
    {
        let st = SegmentTree::<usize, SumUsize>::new(max_val + 1, SumUsize, 0);
        let r = AutoSortVec { max_val, st };
        proof {
            lemma_zero_sum(r.st@, r.st@.len() as int);
        }
        r
    }

    /// The number of elements.
    pub fn len(&self) -> (r: usize)
        requires
            self.well_formed(),
        ensures
            r == self.total(),
    {
        proof {
            self.lemma_query(0, self.max_val + 1);
        }
        self.st.query(0, self.max_val)
    }

    /// Insert one copy of `val`.
    pub fn push(&mut self, val: usize)
        requires
            old(self).well_formed(),
            val <= old(self).spec_max_val(),
            old(self).total() < usize::MAX,
        ensures
            final(self).well_formed(),
            final(self).spec_max_val() == old(self).spec_max_val(),
            final(self).counts() == old(self).counts().update(
                val as int,
                (old(self).counts()[val as int] + 1) as usize,
            ),
    {
        let ghost s0 = self.st@;
        proof {
            lemma_sum_split(s0, 0, val as int, s0.len() as int);
            lemma_sum_split(s0, val as int, val + 1, s0.len() as int);
            assert(range_sum(s0, val as int, val + 1) == s0[val as int]) by {
                assert(range_sum(s0, val as int, val as int) == 0);
            }
        }
        self.st.add(val, 1);
        proof {
            let s1 = self.st@;
            lemma_sum_split(s1, 0, val as int, s1.len() as int);
            lemma_sum_split(s1, val as int, val + 1, s1.len() as int);
            lemma_sum_same(s0, s1, 0, val as int);
            lemma_sum_same(s0, s1, val + 1, s1.len() as int);
            assert(range_sum(s1, val as int, val + 1) == s1[val as int]) by {
                assert(range_sum(s1, val as int, val as int) == 0);
            }
        }
    }

    /// Remove one copy of `val`.
    pub fn remove_value(&mut self, val: usize)
        requires
            old(self).well_formed(),
            val <= old(self).spec_max_val(),
            old(self).counts()[val as int] >= 1,
        ensures
            final(self).well_formed(),
            final(self).spec_max_val() == old(self).spec_max_val(),
            final(self).counts() == old(self).counts().update(
                val as int,
                (old(self).counts()[val as int] - 1) as usize,
            ),
    {
        let ghost s0 = self.st@;
        proof {
            lemma_sum_split(s0, 0, val as int, s0.len() as int);
            lemma_sum_split(s0, val as int, val + 1, s0.len() as int);
            assert(range_sum(s0, val as int, val + 1) == s0[val as int]) by {
                assert(range_sum(s0, val as int, val as int) == 0);
            }
        }
        self.st.sub(val, 1);
        proof {
            let s1 = self.st@;
            lemma_sum_split(s1, 0, val as int, s1.len() as int);
            lemma_sum_split(s1, val as int, val + 1, s1.len() as int);
            lemma_sum_same(s0, s1, 0, val as int);
            lemma_sum_same(s0, s1, val + 1, s1.len() as int);
            assert(range_sum(s1, val as int, val + 1) == s1[val as int]) by {
                assert(range_sum(s1, val as int, val as int) == 0);
            }
        }
    }

    /// The number of elements smaller than `val`: the index of its first copy.
    pub fn value_to_index(&self, val: usize) -> (r: usize)
        requires
            self.well_formed(),
            val <= self.spec_max_val() + 1,
        ensures
            r == self.rank(val as int),
    {
        if val == 0 {
            0
        } else {
            proof {
                self.lemma_query(0, val as int);
            }
            self.st.query(0, val - 1)
        }
    }

    /// The element at sorted position `idx`: the smallest `v` with more than `idx`
    /// elements `<= v`, and `max_val` when there is none below `max_val`.
    pub fn at(&self, idx: usize) -> (r: usize)
        requires
            self.well_formed(),
            idx < usize::MAX,
            self.spec_max_val() == 0 ==> idx < self.counts()[0],
        ensures
            r <= self.spec_max_val(),
            r == self.spec_max_val() || self.rank(r + 1) > idx,
            forall|v: int| 0 <= v < r ==> #[trigger] self.rank(v + 1) <= idx,
    {
        let idx1 = idx + 1;
        let ghost s = self.counts();
        assert(self.rank(1) == s[0]) by {
            assert(range_sum(s, 0, 0) == 0);
        }
        if self.st.get(0) >= idx1 {
            0
        } else if {
            proof {
                self.lemma_query(0, self.max_val as int);
            }
            self.st.query(0, self.max_val - 1) < idx1
        } {
            proof {
                assert forall|v: int| 0 <= v < self.max_val implies #[trigger] self.rank(v + 1) <= idx by {
                    lemma_sum_split(s, 0, v + 1, self.max_val as int);
                }
            }
            self.max_val
        } else {
            let mut l: usize = 0;
            let mut r: usize = self.max_val;
            while r - l > 1
                invariant
                    self.well_formed(),
                    s == self.counts(),
                    l < r <= self.max_val,
                    self.rank(l + 1) < idx1,
                    self.rank(r + 1) >= idx1,
                    forall|v: int| 0 <= v <= l ==> #[trigger] self.rank(v + 1) < idx1,
                decreases r - l,
            {
                let m = (r + l) / 2;
                proof {
                    self.lemma_query(0, m + 1);
                }
                let sm = self.st.query(0, m);
                if sm < idx1 {
                    proof {
                        assert forall|v: int| 0 <= v <= m implies #[trigger] self.rank(v + 1) < idx1 by {
                            lemma_sum_split(s, 0, v + 1, m + 1);
                        }
                    }
                    l = m;
                } else {
                    r = m;
                }
            }
            r
        }
    }
}

proof fn lemma_zero_sum(s: Seq<usize>, k: int)
    requires
        forall|i: int| 0 <= i < s.len() ==> s[i] == 0,
        k <= s.len(),
    ensures
        range_sum(s, 0, k) == 0,
    decreases k,
{
    if k > 0 {
        lemma_zero_sum(s, k - 1);
    }
}

proof fn lemma_sum_same(s: Seq<usize>, t: Seq<usize>, lo: int, hi: int)
    requires
        0 <= lo,
        hi <= s.len(),
        hi <= t.len(),
        forall|i: int| lo <= i < hi ==> s[i] == t[i],
    ensures
        range_sum(s, lo, hi) == range_sum(t, lo, hi),
    decreases hi - lo,
{
    if hi > lo {
        lemma_sum_same(s, t, lo, hi - 1);
    }
}

} // verus!
