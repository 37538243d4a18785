//! Coordinate compression: replace values by their ranks among the distinct values.
use vstd::prelude::*;
use std::collections::{BTreeSet, HashMap};
use vstd::std_specs::iter::IteratorSpec;
use vstd::std_specs::cmp::OrdSpec;

verus! {

broadcast use vstd::std_specs::btree::group_btree_axioms, vstd::std_specs::hash::group_hash_axioms,
    vstd::laws_cmp::group_laws_cmp;

/// The entries of `s` increase strictly.
pub open spec fn strictly_increasing(s: Seq<i64>) -> bool {
    forall|i: int, j: int| 0 <= i < j < s.len() ==> s[i] < s[j]
}

/// The rank of `x` among the distinct values of `vals`: how many of them are below `x`.
pub open spec fn rank(vals: Seq<i64>, x: i64) -> nat {
    vals.to_set().filter(|y: i64| y < x).len()
}

/// Compression of a collection of values.
pub trait CoordinateCompress<T> {
    /// Each distinct value mapped to its rank.
    fn compress_encoder(&self) -> HashMap<T, usize>;

    /// The distinct values in increasing order.
    fn compress_decoder(&self) -> Vec<T>;

    /// Each value replaced by its rank.
    fn compress(self) -> Vec<usize>;
}

/// In a strictly increasing sequence covering a set, the entries below entry `k` are the first
/// `k` entries, so entry `k` has rank `k`.
proof fn lemma_rank_of_entry(vals: Seq<i64>, d: Seq<i64>, k: int)
    requires
        strictly_increasing(d),
        d.to_set() == vals.to_set(),
        0 <= k < d.len(),
    ensures
        rank(vals, d[k]) == k,
{
    let below = vals.to_set().filter(|y: i64| y < d[k]);
    let pre = d.subrange(0, k);
    assert forall|y: i64| below.contains(y) <==> pre.to_set().contains(y) by {
        if below.contains(y) {
            assert(d.to_set().contains(y));
            let j = choose|j: int| 0 <= j < d.len() && d[j] == y;
            if j >= k {
                assert(d[k] <= d[j]);
            }
            assert(pre[j] == y);
        }
        if pre.to_set().contains(y) {
            let j = choose|j: int| 0 <= j < pre.len() && pre[j] == y;
            assert(d[j] == y);
            assert(d.to_set().contains(y));
        }
    }
    assert(below == pre.to_set());
    assert(pre.no_duplicates()) by {
        assert forall|a: int, b: int| 0 <= a < pre.len() && 0 <= b < pre.len() && a != b implies pre[a] != pre[b] by {
            if a < b {
                assert(d[a] < d[b]);
            } else {
                assert(d[b] < d[a]);
            }
        }
    }
    pre.unique_seq_to_set();
}

/// The distinct values of `v` in increasing order.
fn sorted_distinct(v: &Vec<i64>) -> (r: Vec<i64>)
    ensures
        strictly_increasing(r@),
        r@.to_set() == v@.to_set(),
{
    let mut set: BTreeSet<i64> = BTreeSet::new();
    for i in 0..v.len()
        invariant
            set@ == v@.subrange(0, i as int).to_set(),
    {
        set.insert(v[i]);
        proof {
            assert(v@.subrange(0, i + 1) == v@.subrange(0, i as int).push(v@[i as int]));
            v@.subrange(0, i as int).lemma_push_to_set_commute(v@[i as int]);
        }
    }
    assert(v@.subrange(0, v@.len() as int) == v@);
    let mut r: Vec<i64> = Vec::new();
    let ghost rem = vstd::std_specs::btree::spec_btree_keys_iter(&set).remaining();
    for x in it: set.iter()
        invariant
            it.seq() == rem,
            r@.len() == it.index(),
            forall|k: int| 0 <= k < it.index() ==> r@[k] == *it.seq()[k],
    {
        r.push(*x);
    }
    proof {
        assert(r@ =~= rem.unref());
        lemma_increasing_refs(rem);
    }
    r
}

/// A sequence of references to integers that increases in the order of `Ord` increases.
proof fn lemma_increasing_refs(rem: Seq<&i64>)
    requires
        vstd::std_specs::btree::increasing_seq(rem),
    ensures
        strictly_increasing(rem.unref()),
{
    assert(vstd::laws_cmp::obeys_cmp::<i64>());
    assert(vstd::laws_cmp::obeys_cmp::<&i64>());
    vstd::std_specs::btree::axiom_increasing_seq_meaning(rem);
    assert forall|a: int, b: int| 0 <= a < b < rem.unref().len() implies rem.unref()[a] < rem.unref()[b] by {
        assert(OrdSpec::cmp_spec(&rem[a], &rem[b]) is Less);
    }
}

impl CoordinateCompress<i64> for Vec<i64> {
    fn compress_encoder(&self) -> (r: HashMap<i64, usize>)
        ensures
            r@.dom() == self@.to_set(),
            forall|x: i64| #[trigger] r@.contains_key(x) ==> r@[x] == rank(self@, x),
    {
        let d = sorted_distinct(self);
        let mut ret: HashMap<i64, usize> = HashMap::new();
        for k in 0..d.len()
            invariant
                strictly_increasing(d@),
                d@.to_set() == self@.to_set(),
                ret@.dom() == d@.subrange(0, k as int).to_set(),
                forall|x: i64| #[trigger] ret@.contains_key(x) ==> ret@[x] == rank(self@, x),
        {
            proof {
                lemma_rank_of_entry(self@, d@, k as int);
                assert(d@.subrange(0, k + 1) == d@.subrange(0, k as int).push(d@[k as int]));
                d@.subrange(0, k as int).lemma_push_to_set_commute(d@[k as int]);
            }
            ret.insert(d[k], k);
        }
        assert(d@.subrange(0, d@.len() as int) == d@);
        ret
    }

    fn compress_decoder(&self) -> (r: Vec<i64>)
        ensures
            strictly_increasing(r@),
            r@.to_set() == self@.to_set(),
    {
        sorted_distinct(self)
    }

    fn compress(self) -> (r: Vec<usize>)
        ensures
            r@.len() == self@.len(),
            forall|i: int| 0 <= i < r@.len() ==> #[trigger] r@[i] == rank(self@, self@[i]),
    {
        let dict = self.compress_encoder();
        let mut r: Vec<usize> = Vec::new();
        for i in 0..self.len()
            invariant
                dict@.dom() == self@.to_set(),
                forall|x: i64| #[trigger] dict@.contains_key(x) ==> dict@[x] == rank(self@, x),
                r@.len() == i,
                forall|j: int| 0 <= j < i ==> #[trigger] r@[j] == rank(self@, self@[j]),
        {
            let x = self[i];
            assert(self@.to_set().contains(x));
            let v = *dict.get(&x).unwrap();
            r.push(v);
        }
        r
    }
}

} // verus!
