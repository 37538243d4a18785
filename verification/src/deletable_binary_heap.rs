//! A max-priority queue that supports deleting arbitrary elements lazily.
use vstd::prelude::*;
use crate::ordering::{insert_sorted, lemma_sorted_last_max, sorted, LinearOrder};

verus! {

/// Queued elements and pending deletions, each kept in ascending order
/// (the largest at the end).
pub struct DeletableBinaryHeap<T> {
    que: Vec<T>,
    del_rsv: Vec<T>,
}

impl<T: LinearOrder> DeletableBinaryHeap<T> {
    /// How many copies of `x` are held and not deleted.
    pub closed spec fn live_count(&self, x: T) -> int {
        self.que@.to_multiset().count(x) - self.del_rsv@.to_multiset().count(x)
    }

    /// No element is held.
    pub open spec fn spec_is_empty(&self) -> bool {
        forall|x: T| self.live_count(x) == 0
    }

    /// `m` is a held element and no held element is larger.
    pub open spec fn is_max(&self, m: T) -> bool {
        &&& self.live_count(m) >= 1
        &&& forall|y: T| #[trigger] self.live_count(y) >= 1 ==> T::spec_le(y, m)
    }

    /// The internal invariant: both vectors sorted, deletions a sub-multiset of the queue.
    pub closed spec fn well_formed(&self) -> bool {
        &&& sorted(self.que@)
        &&& sorted(self.del_rsv@)
        &&& self.del_rsv@.to_multiset().subset_of(self.que@.to_multiset())
    }

    /// The same held elements.
    pub open spec fn same_live(&self, other: &Self) -> bool {
        forall|x: T| #[trigger] self.live_count(x) == other.live_count(x)
    }

    /// An empty queue.
    pub fn new() -> (r: Self)
        ensures
            r.well_formed(),
            r.spec_is_empty(),
    {
        let r = DeletableBinaryHeap { que: Vec::new(), del_rsv: Vec::new() };
        proof {
            broadcast use vstd::seq_lib::group_to_multiset_ensures;
            broadcast use vstd::multiset::group_multiset_axioms;

            assert(r.que@ =~= Seq::<T>::empty());
            assert(r.del_rsv@ =~= Seq::<T>::empty());
            assert forall|x: T| r.live_count(x) == 0 by {}
        }
        r
    }

    fn same_value(a: &T, b: &T) -> (r: bool)
        ensures
            r == (*a == *b),
    {
        let r = a.le(b) && b.le(a);
        proof {
            if r {
                T::lemma_antisymmetric(*a, *b);
            } else if *a == *b {
                T::lemma_total(*a, *b);
            }
        }
        r
    }

    /// Drop the largest queued elements while they are pending deletions.
    fn lazy_eval(&mut self)
        requires
            old(self).well_formed(),
        ensures
            final(self).well_formed(),
            final(self).same_live(old(self)),
            final(self).del_rsv@.len() == 0 || final(self).que@.last() != final(self).del_rsv@.last(),
    {
        broadcast use vstd::seq_lib::group_to_multiset_ensures;
        broadcast use vstd::multiset::group_multiset_axioms;

        while self.del_rsv.len() > 0
            invariant
                self.well_formed(),
                self.same_live(old(self)),
            ensures
                self.well_formed(),
                self.same_live(old(self)),
                self.del_rsv@.len() == 0 || self.que@.last() != self.del_rsv@.last(),
            decreases self.del_rsv@.len(),
        {
            let nd = self.del_rsv.len();
            proof {
                broadcast use vstd::seq_lib::group_to_multiset_ensures;
                broadcast use vstd::multiset::group_multiset_axioms;

                let d = self.del_rsv@[nd - 1];
                assert(self.del_rsv@.contains(d));
                assert(self.del_rsv@.to_multiset().count(d) >= 1);
                assert(self.que@.to_multiset().count(d) >= 1);
                assert(self.que@.len() == self.que@.to_multiset().len());
                assert(self.que@.len() > 0) by {
                    if self.que@.len() == 0 {
                        assert(self.que@ =~= Seq::<T>::empty());
                    }
                }
            }
            let nq = self.que.len();
            if Self::same_value(&self.del_rsv[nd - 1], &self.que[nq - 1]) {
                let ghost before = *self;
                self.que.pop();
                self.del_rsv.pop();
                proof {
                    assert(before.que@.drop_last() =~= before.que@.remove(nq - 1));
                    assert(before.del_rsv@.drop_last() =~= before.del_rsv@.remove(nd - 1));
                    assert(self.que@ == before.que@.remove(nq - 1));
                    assert(self.del_rsv@ == before.del_rsv@.remove(nd - 1));
                    assert(sorted(self.que@));
                    assert(sorted(self.del_rsv@));
                    assert forall|x: T| #[trigger] self.live_count(x) == before.live_count(x) by {}
                    assert forall|x: T| self.del_rsv@.to_multiset().count(x) <= #[trigger] self.que@.to_multiset().count(x) by {
                        assert(before.del_rsv@.to_multiset().count(x) <= before.que@.to_multiset().count(x));
                    }
                }
            } else {
                break;
            }
        }
    }

    /// Emptiness and the maximum depend only on the held elements.
    proof fn lemma_same_live_transfer(&self, other: &Self)
        requires
            self.same_live(other),
        ensures
            self.spec_is_empty() == other.spec_is_empty(),
            forall|m: T| self.is_max(m) == other.is_max(m),
    {
        if self.spec_is_empty() {
            assert forall|x: T| other.live_count(x) == 0 by {
                assert(self.live_count(x) == 0);
            }
        }
        if other.spec_is_empty() {
            assert forall|x: T| self.live_count(x) == 0 by {
                assert(other.live_count(x) == 0);
            }
        }
        assert forall|m: T| self.is_max(m) == other.is_max(m) by {
            assert(self.live_count(m) == other.live_count(m));
            if self.is_max(m) {
                assert forall|y: T| #[trigger] other.live_count(y) >= 1 implies T::spec_le(y, m) by {
                    assert(self.live_count(y) == other.live_count(y));
                }
            }
            if other.is_max(m) {
                assert forall|y: T| #[trigger] self.live_count(y) >= 1 implies T::spec_le(y, m) by {
                    assert(self.live_count(y) == other.live_count(y));
                }
            }
        }
    }

    proof fn lemma_top_is_max(&self)
        requires
            self.well_formed(),
            self.que@.len() > 0,
            self.del_rsv@.len() == 0 || self.que@.last() != self.del_rsv@.last(),
        ensures
            self.is_max(self.que@.last()),
    {
        broadcast use vstd::seq_lib::group_to_multiset_ensures;
        broadcast use vstd::multiset::group_multiset_axioms;

        let q = self.que@.last();
        assert(self.que@.contains(q));
        if self.del_rsv@.to_multiset().count(q) > 0 {
            assert(self.del_rsv@.contains(q));
            lemma_sorted_last_max(self.del_rsv@, q);
            let d = self.del_rsv@.last();
            assert(self.del_rsv@.contains(d));
            assert(self.que@.to_multiset().count(d) > 0);
            lemma_sorted_last_max(self.que@, d);
            T::lemma_antisymmetric(q, d);
        }
        assert forall|y: T| #[trigger] self.live_count(y) >= 1 implies T::spec_le(y, q) by {
            assert(self.que@.contains(y));
            lemma_sorted_last_max(self.que@, y);
        }
    }

    /// Remove and return the largest element.
    pub fn pop(&mut self) -> (r: Option<T>)
        requires
            old(self).well_formed(),
        ensures
            final(self).well_formed(),
            match r {
                None => old(self).spec_is_empty() && final(self).same_live(old(self)),
                Some(m) => old(self).is_max(m) && forall|x: T| #[trigger] final(self).live_count(x)
                    == old(self).live_count(x) - if x == m { 1int } else { 0int },
            },
    {
        broadcast use vstd::seq_lib::group_to_multiset_ensures;
        broadcast use vstd::multiset::group_multiset_axioms;

        self.lazy_eval();
        proof {
            self.lemma_same_live_transfer(old(self));
        }
        if self.que.len() == 0 {
            proof {
                assert forall|x: T| self.live_count(x) == 0 by {
                    assert(self.que@ =~= Seq::<T>::empty());
                    assert(self.del_rsv@.to_multiset().count(x) <= self.que@.to_multiset().count(x));
                }
            }
            return None;
        }
        proof {
            self.lemma_top_is_max();
        }
        let ghost before = *self;
        let r = self.que.pop();
        proof {
            let n = before.que@.len();
            assert(before.que@.drop_last() =~= before.que@.remove(n - 1));
            assert(self.que@ == before.que@.remove(n - 1));
            assert(sorted(self.que@));
            let m = before.que@.last();
            assert(before.del_rsv@.to_multiset().count(m) < before.que@.to_multiset().count(m));
            assert forall|x: T| self.del_rsv@.to_multiset().count(x) <= #[trigger] self.que@.to_multiset().count(x) by {
                assert(before.del_rsv@.to_multiset().count(x) <= before.que@.to_multiset().count(x));
            }
            assert forall|x: T| #[trigger] self.live_count(x) == old(self).live_count(x) - if x == m { 1int } else { 0int } by {
                assert(before.live_count(x) == old(self).live_count(x));
            }
        }
        r
    }

    /// Add an element.
    pub fn push(&mut self, v: T)
        requires
            old(self).well_formed(),
        ensures
            final(self).well_formed(),
            forall|x: T| #[trigger] final(self).live_count(x) == old(self).live_count(x) + if x == v {
                1int
            } else {
                0int
            },
    {
        broadcast use vstd::multiset::group_multiset_axioms;

        self.lazy_eval();
        let ghost before = *self;
        insert_sorted(&mut self.que, v);
        proof {
            assert forall|x: T| self.del_rsv@.to_multiset().count(x) <= #[trigger] self.que@.to_multiset().count(x) by {
                assert(before.del_rsv@.to_multiset().count(x) <= before.que@.to_multiset().count(x));
            }
            assert forall|x: T| #[trigger] self.live_count(x) == old(self).live_count(x) + if x == v { 1int } else { 0int } by {
                assert(before.live_count(x) == old(self).live_count(x));
                assert(self.que@.to_multiset().count(x) == before.que@.to_multiset().count(x) + if x == v { 1int } else { 0int });
            }
        }
    }

    /// The largest element.
    pub fn peek(&mut self) -> (r: Option<&T>)
        requires
            old(self).well_formed(),
        ensures
            final(self).well_formed(),
            final(self).same_live(old(self)),
            match r {
                None => old(self).spec_is_empty(),
                Some(m) => old(self).is_max(*m),
            },
    {
        broadcast use vstd::seq_lib::group_to_multiset_ensures;
        broadcast use vstd::multiset::group_multiset_axioms;

        self.lazy_eval();
        proof {
            self.lemma_same_live_transfer(old(self));
        }
        if self.que.len() == 0 {
            proof {
                assert forall|x: T| self.live_count(x) == 0 by {
                    assert(self.que@ =~= Seq::<T>::empty());
                    assert(self.del_rsv@.to_multiset().count(x) <= self.que@.to_multiset().count(x));
                }
            }
            return None;
        }
        proof {
            self.lemma_top_is_max();
        }
        let n = self.que.len();
        Some(&self.que[n - 1])
    }

    /// Delete one copy of `del_v`, which must be held.
    pub fn remove(&mut self, del_v: &T)
        requires
            old(self).well_formed(),
            old(self).live_count(*del_v) >= 1,
        ensures
            final(self).well_formed(),
            forall|x: T| #[trigger] final(self).live_count(x) == old(self).live_count(x) - if x
                == *del_v {
                1int
            } else {
                0int
            },
    {
        broadcast use vstd::multiset::group_multiset_axioms;

        let ghost before = *self;
        insert_sorted(&mut self.del_rsv, *del_v);
        proof {
            assert forall|x: T| self.del_rsv@.to_multiset().count(x) <= #[trigger] self.que@.to_multiset().count(x) by {
                assert(before.del_rsv@.to_multiset().count(x) <= before.que@.to_multiset().count(x));
            }
        }
    }
}

} // verus!
