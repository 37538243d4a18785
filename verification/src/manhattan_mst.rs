//! Minimum spanning tree of points under the Manhattan distance: for each point, the nearest
//! point in each of the eight octants is a candidate edge, and Kruskal's method picks the tree.
use vstd::prelude::*;
use std::collections::HashMap;
use crate::segment_tree::{PairOp, SegmentTree, fold};
use crate::ordering::{LinearOrder, sort_vec, sorted, lemma_swap_multiset};
use crate::union_find::UnionFind;
use crate::coordinate_compress::{CoordinateCompress, rank};

verus! {

/// Of two `(index, value)` pairs, the one with the smaller value; the second on a tie.
#[derive(Clone, Copy)]
pub struct MinByValue;

impl PairOp<(usize, i64)> for MinByValue {
    open spec fn spec_pair(a: (usize, i64), b: (usize, i64)) -> (usize, i64) {
        if a.1 < b.1 {
            a
        } else {
            b
        }
    }

    proof fn lemma_associative(a: (usize, i64), b: (usize, i64), c: (usize, i64)) {
    }

    fn pair(&self, a: (usize, i64), b: (usize, i64)) -> (r: (usize, i64)) {
        if a.1 < b.1 {
            a
        } else {
            b
        }
    }
}

/// The fold of a range under `MinByValue` is one of the range's elements.
proof fn lemma_fold_member(s: Seq<(usize, i64)>, lo: int, hi: int)
    requires
        0 <= lo < hi <= s.len(),
    ensures
        exists|k: int| lo <= k < hi && #[trigger] s[k] == fold::<(usize, i64), MinByValue>(s, lo, hi),
    decreases hi - lo,
{
    if hi - lo > 1 {
        lemma_fold_member(s, lo, hi - 1);
        let f = fold::<(usize, i64), MinByValue>(s, lo, hi - 1);
        let k = choose|k: int| lo <= k < hi - 1 && #[trigger] s[k] == f;
        if f.1 < s[hi - 1].1 {
            assert(s[k] == fold::<(usize, i64), MinByValue>(s, lo, hi));
        } else {
            assert(s[hi - 1] == fold::<(usize, i64), MinByValue>(s, lo, hi));
        }
    } else {
        assert(s[lo] == fold::<(usize, i64), MinByValue>(s, lo, hi));
    }
}

/// A candidate edge of length `dist` between the points of indices `a` and `b`.
#[derive(Clone, Copy)]
pub struct Candidate {
    pub dist: i64,
    pub a: usize,
    pub b: usize,
}

/// Candidates in lexicographic order of `(dist, a, b)`.
impl LinearOrder for Candidate {
    open spec fn spec_le(x: Candidate, y: Candidate) -> bool {
        x.dist < y.dist || (x.dist == y.dist && (x.a < y.a || (x.a == y.a && x.b <= y.b)))
    }

    proof fn lemma_total(x: Candidate, y: Candidate) {
    }

    proof fn lemma_transitive(x: Candidate, y: Candidate, z: Candidate) {
    }

    proof fn lemma_antisymmetric(x: Candidate, y: Candidate) {
    }

    fn le(&self, other: &Candidate) -> (r: bool) {
        self.dist < other.dist || (self.dist == other.dist && (self.a < other.a || (self.a == other.a && self.b <= other.b)))
    }
}

/// The key the sweeps order points by.
pub open spec fn sweep_key(p: (usize, (i64, i64))) -> int {
    p.1.0 - p.1.1
}

/// A coordinate small enough for every sum and difference the sweeps take.
pub open spec fn coord_small(v: i64) -> bool {
    -0x800_0000_0000_0000 < v < 0x800_0000_0000_0000
}

/// Both coordinates of every point are small.
pub open spec fn points_small(pts: Seq<(usize, (i64, i64))>) -> bool {
    forall|k: int| 0 <= k < pts.len() ==> coord_small((#[trigger] pts[k]).1.0) && coord_small(pts[k].1.1)
}

/// Stable insertion sort of the points by `y - x`.
fn sort_by_key(pts: &mut Vec<(usize, (i64, i64))>)
    requires
        points_small(old(pts)@),
    ensures
        final(pts)@.to_multiset() == old(pts)@.to_multiset(),
        final(pts)@.len() == old(pts)@.len(),
        points_small(final(pts)@),
        forall|a: int, b: int| 0 <= a < b < final(pts)@.len() ==> sweep_key(#[trigger] final(pts)@[a]) <= sweep_key(#[trigger] final(pts)@[b]),
{
    broadcast use vstd::seq_lib::group_to_multiset_ensures;

    let n = pts.len();
    let mut i: usize = 1;
    while i < n
        invariant
            n == pts@.len(),
            1 <= i <= n || n == 0,
            pts@.to_multiset() == old(pts)@.to_multiset(),
            points_small(pts@),
            forall|a: int, b: int| 0 <= a < b < i && b < n ==> sweep_key(#[trigger] pts@[a]) <= sweep_key(#[trigger] pts@[b]),
        decreases n - i,
    {
        let mut j = i;
        while j > 0 && pts[j - 1].1.0 - pts[j - 1].1.1 > pts[j].1.0 - pts[j].1.1
            invariant
                n == pts@.len(),
                1 <= i < n,
                j <= i,
                pts@.to_multiset() == old(pts)@.to_multiset(),
                points_small(pts@),
                forall|a: int, b: int| 0 <= a < b <= i && a != j && b != j ==> sweep_key(#[trigger] pts@[a]) <= sweep_key(#[trigger] pts@[b]),
                forall|b: int| j < b <= i ==> sweep_key(pts@[j as int]) < sweep_key(#[trigger] pts@[b]),
                forall|a: int, b: int| 0 <= a < j && j < b <= i ==> sweep_key(#[trigger] pts@[a]) <= sweep_key(#[trigger] pts@[b]),
            decreases j,
        {
            let ghost before = pts@;
            let a = pts[j - 1];
            let b = pts[j];
            pts.set(j - 1, b);
            pts.set(j, a);
            proof {
                assert(pts@ =~= before.update(j - 1, b).update(j as int, a));
                lemma_swap_multiset(before, j - 1, j as int);
            }
            j = j - 1;
        }
        i = i + 1;
    }
}

/// The `y` coordinates of the points.
pub open spec fn ys(pts: Seq<(usize, (i64, i64))>) -> Seq<i64> {
    pts.map_values(|p: (usize, (i64, i64))| p.1.0)
}

/// Absolute value.
pub open spec fn abs_int(v: int) -> int {
    if v < 0 {
        -v
    } else {
        v
    }
}

/// Manhattan distance of two points `(y, x)`.
pub open spec fn manhattan(p: (i64, i64), q: (i64, i64)) -> int {
    abs_int(p.0 - q.0) + abs_int(p.1 - q.1)
}

/// The candidate joins the points at positions `p` and `q` of `pts` at their distance.
pub open spec fn joins(pts: Seq<(usize, (i64, i64))>, e: Candidate, p: int, q: int) -> bool {
    &&& 0 <= p < pts.len()
    &&& 0 <= q < pts.len()
    &&& pts[p].0 == e.a
    &&& pts[q].0 == e.b
    &&& e.dist == manhattan(pts[p].1, pts[q].1)
}

/// The candidate joins two of the points at their distance.
pub open spec fn candidate_ok(pts: Seq<(usize, (i64, i64))>, e: Candidate) -> bool {
    exists|p: int, q: int| #[trigger] joins(pts, e, p, q)
}

/// A smaller value present among `vals` has a smaller rank.
proof fn lemma_rank_lt(vals: Seq<i64>, a: i64, b: i64)
    requires
        vals.to_set().contains(a),
        a < b,
    ensures
        rank(vals, a) < rank(vals, b),
{
    let sa = vals.to_set().filter(|y: i64| y < a);
    let sb = vals.to_set().filter(|y: i64| y < b);
    vstd::seq_lib::seq_to_set_is_finite(vals);
    assert(sa.subset_of(sb.remove(a)));
    vstd::set_lib::lemma_len_subset(sa, sb.remove(a));
}

/// A value present among `vals` has a rank below their number.
proof fn lemma_rank_bound(vals: Seq<i64>, a: i64)
    requires
        vals.to_set().contains(a),
    ensures
        rank(vals, a) < vals.len(),
{
    let s = vals.to_set();
    let sa = s.filter(|y: i64| y < a);
    vstd::seq_lib::seq_to_set_is_finite(vals);
    vals.lemma_cardinality_of_set();
    assert(sa.subset_of(s.remove(a)));
    vstd::set_lib::lemma_len_subset(sa, s.remove(a));
}

/// What a leaf of the sweep's tree holds: nothing yet, or a point already swept whose `y`
/// has the leaf's rank, with its `y + x`.
pub open spec fn leaf_ok(pts: Seq<(usize, (i64, i64))>, done: int, r: int, v: (usize, i64)) -> bool {
    v == (0usize, 0x1000_0000_0000_0000i64) || exists|p: int|
        0 <= p < done && #[trigger] pts[p].0 == v.0 && v.1 == pts[p].1.0 + pts[p].1.1 && rank(ys(pts), pts[p].1.0) == r
}

/// The leaves of the sweep's tree after the first `p` points: leaf `r` holds, among the
/// points so far whose `y` has rank `r`, the first with the least `y + x` (with its index),
/// or `(0, 2^60)` when there is none.
pub open spec fn sweep_leaf(pts: Seq<(usize, (i64, i64))>, p: int, r: int) -> (usize, i64)
    decreases p,
{
    if p <= 0 {
        (0usize, 0x1000_0000_0000_0000i64)
    } else {
        let prev = sweep_leaf(pts, p - 1, r);
        let q = pts[p - 1];
        if rank(ys(pts), q.1.0) == r && prev.1 > q.1.0 + q.1.1 {
            (q.0, (q.1.0 + q.1.1) as i64)
        } else {
            prev
        }
    }
}

/// All leaves after the first `p` points.
pub open spec fn sweep_leaves(pts: Seq<(usize, (i64, i64))>, p: int) -> Seq<(usize, i64)> {
    Seq::new(pts.len(), |r: int| sweep_leaf(pts, p, r))
}

/// The candidate edges the first `p` points add: point `p` is joined to the leaf with the
/// least `y + x` (the last such on a tie) among the ranks at or above its own, if any.
pub open spec fn sweep_edges(pts: Seq<(usize, (i64, i64))>, p: int) -> Seq<Candidate>
    decreases p,
{
    if p <= 0 {
        Seq::empty()
    } else {
        let q = pts[p - 1];
        let best = fold::<(usize, i64), MinByValue>(sweep_leaves(pts, p - 1), rank(ys(pts), q.1.0) as int, pts.len() as int);
        if best.1 != 0x1000_0000_0000_0000i64 {
            sweep_edges(pts, p - 1).push(Candidate { dist: (best.1 - (q.1.0 + q.1.1)) as i64, a: q.0, b: best.0 })
        } else {
            sweep_edges(pts, p - 1)
        }
    }
}

/// One sweep over points sorted by `y - x`: each point is joined to the point with the least
/// `y + x` among those swept before it whose `y` is at least its own.
fn sweep(pts: &Vec<(usize, (i64, i64))>, y_enc: &HashMap<i64, usize>, edges: &mut Vec<Candidate>)
    requires
        points_small(pts@),
        pts@.len() <= usize::MAX / 2,
        forall|a: int, b: int| 0 <= a < b < pts@.len() ==> sweep_key(#[trigger] pts@[a]) <= sweep_key(#[trigger] pts@[b]),
        y_enc@.dom() == ys(pts@).to_set(),
        forall|y: i64| #[trigger] y_enc@.contains_key(y) ==> y_enc@[y] == rank(ys(pts@), y),
    ensures
        final(edges)@.len() >= old(edges)@.len(),
        forall|k: int| 0 <= k < old(edges)@.len() ==> #[trigger] final(edges)@[k] == old(edges)@[k],
        forall|k: int| old(edges)@.len() <= k < final(edges)@.len() ==> candidate_ok(pts@, #[trigger] final(edges)@[k]),
        final(edges)@ == old(edges)@ + sweep_edges(pts@, pts@.len() as int),
{
    let n = pts.len();
    if n == 0 {
        assert(old(edges)@ + sweep_edges(pts@, 0) =~= old(edges)@);
        return;
    }
    let inf: i64 = 0x1000_0000_0000_0000;
    let ghost vals = ys(pts@);
    let mut st = SegmentTree::new(n, MinByValue, (0, inf));
    proof {
        assert(st@ =~= sweep_leaves(pts@, 0));
        assert(edges@ =~= old(edges)@ + sweep_edges(pts@, 0));
    }
    for p in 0..n
        invariant
            n == pts@.len(),
            n > 0,
            inf == 0x1000_0000_0000_0000i64,
            vals == ys(pts@),
            points_small(pts@),
            forall|a: int, b: int| 0 <= a < b < pts@.len() ==> sweep_key(#[trigger] pts@[a]) <= sweep_key(#[trigger] pts@[b]),
            y_enc@.dom() == vals.to_set(),
            forall|y: i64| #[trigger] y_enc@.contains_key(y) ==> y_enc@[y] == rank(vals, y),
            st.well_formed(),
            st@.len() == n,
            forall|r: int| 0 <= r < n ==> leaf_ok(pts@, p as int, r, #[trigger] st@[r]),
            edges@.len() >= old(edges)@.len(),
            forall|k: int| 0 <= k < old(edges)@.len() ==> #[trigger] edges@[k] == old(edges)@[k],
            forall|k: int| old(edges)@.len() <= k < edges@.len() ==> candidate_ok(pts@, #[trigger] edges@[k]),
            st@ == sweep_leaves(pts@, p as int),
            edges@ == old(edges)@ + sweep_edges(pts@, p as int),
    {
        let (i, (y, x)) = pts[p];
        proof {
            assert(vals[p as int] == y);
            vstd::seq_lib::seq_to_set_is_finite(vals);
            assert(vals.to_set().contains(y));
            lemma_rank_bound(vals, y);
        }
        let ey = *y_enc.get(&y).unwrap();
        let q = st.query(ey, n - 1);
        if q.1 != inf {
            proof {
                lemma_fold_member(st@, ey as int, n as int);
            }
            let ghost r = choose|r: int| ey <= r < n && #[trigger] st@[r] == fold::<(usize, i64), MinByValue>(st@, ey as int, n as int);
            proof {
                assert(leaf_ok(pts@, p as int, r, st@[r]));
            }
            let ghost pp = choose|pq: int|
                0 <= pq < p && #[trigger] pts@[pq].0 == q.0 && q.1 == pts@[pq].1.0 + pts@[pq].1.1 && rank(vals, pts@[pq].1.0) == r;
            proof {
                let yq = pts@[pp].1.0;
                assert(vals[pp] == yq);
                assert(vals.to_set().contains(yq));
                if yq < y {
                    lemma_rank_lt(vals, yq, y);
                }
                assert(sweep_key(pts@[pp]) <= sweep_key(pts@[p as int]));
            }
            let delta = q.1 - (y + x);
            let c = Candidate { dist: delta, a: i, b: q.0 };
            proof {
                assert(joins(pts@, c, p as int, pp));
            }
            edges.push(c);
            proof {
                assert(edges@ =~= old(edges)@ + sweep_edges(pts@, p + 1));
            }
        } else {
            proof {
                assert(edges@ =~= old(edges)@ + sweep_edges(pts@, p + 1));
            }
        }
        let cur = st.get(ey);
        let ghost before = st@;
        if cur.1 > y + x {
            st.set(ey, (i, y + x));
        }
        proof {
            assert(st@ =~= sweep_leaves(pts@, p + 1));
            assert forall|r: int| 0 <= r < n implies leaf_ok(pts@, p + 1, r, #[trigger] st@[r]) by {
                if r == ey && cur.1 > y + x {
                    assert(pts@[p as int].0 == i);
                } else {
                    assert(st@[r] == before[r]);
                    assert(leaf_ok(pts@, p as int, r, before[r]));
                }
            }
        }
    }
}

/// The points at positions `p` and `q` of `cur` have, in `orig`, points of the same indices
/// at the same distance.
pub open spec fn iso_pair(orig: Seq<(usize, (i64, i64))>, cur: Seq<(usize, (i64, i64))>, p: int, q: int) -> bool {
    exists|p1: int, q1: int|
        #![trigger orig[p1], orig[q1]]
        0 <= p1 < orig.len() && 0 <= q1 < orig.len() && orig[p1].0 == cur[p].0 && orig[q1].0 == cur[q].0
            && manhattan(orig[p1].1, orig[q1].1) == manhattan(cur[p].1, cur[q].1)
}

/// Every pair of points of `cur` has, in `orig`, points of the same indices at the same
/// distance.
pub open spec fn iso(orig: Seq<(usize, (i64, i64))>, cur: Seq<(usize, (i64, i64))>) -> bool {
    forall|p: int, q: int| 0 <= p < cur.len() && 0 <= q < cur.len() ==> #[trigger] iso_pair(orig, cur, p, q)
}

proof fn lemma_iso_refl(s: Seq<(usize, (i64, i64))>)
    ensures
        iso(s, s),
{
    assert forall|p: int, q: int| 0 <= p < s.len() && 0 <= q < s.len() implies #[trigger] iso_pair(s, s, p, q) by {
        assert(s[p] == s[p] && s[q] == s[q]);
    }
}

proof fn lemma_iso_candidate(orig: Seq<(usize, (i64, i64))>, cur: Seq<(usize, (i64, i64))>, e: Candidate)
    requires
        iso(orig, cur),
        candidate_ok(cur, e),
    ensures
        candidate_ok(orig, e),
{
    let (p, q) = choose|p: int, q: int| #[trigger] joins(cur, e, p, q);
    assert(iso_pair(orig, cur, p, q));
    let (p1, q1) = choose|p1: int, q1: int|
        #![trigger orig[p1], orig[q1]]
        0 <= p1 < orig.len() && 0 <= q1 < orig.len() && orig[p1].0 == cur[p].0 && orig[q1].0 == cur[q].0 && manhattan(
            orig[p1].1,
            orig[q1].1,
        ) == manhattan(cur[p].1, cur[q].1);
    assert(joins(orig, e, p1, q1));
}

/// The same points in another order keep the relation.
proof fn lemma_iso_perm(orig: Seq<(usize, (i64, i64))>, cur: Seq<(usize, (i64, i64))>, cur2: Seq<(usize, (i64, i64))>)
    requires
        iso(orig, cur),
        cur2.to_multiset() == cur.to_multiset(),
    ensures
        iso(orig, cur2),
{
    broadcast use vstd::seq_lib::group_to_multiset_ensures;

    assert forall|p: int, q: int| 0 <= p < cur2.len() && 0 <= q < cur2.len() implies #[trigger] iso_pair(orig, cur2, p, q) by {
        assert(cur2.contains(cur2[p]));
        assert(cur2.contains(cur2[q]));
        assert(cur.to_multiset().count(cur2[p]) > 0);
        assert(cur.to_multiset().count(cur2[q]) > 0);
        assert(cur.contains(cur2[p]));
        assert(cur.contains(cur2[q]));
        let a = choose|a: int| 0 <= a < cur.len() && cur[a] == cur2[p];
        let b = choose|b: int| 0 <= b < cur.len() && cur[b] == cur2[q];
        assert(iso_pair(orig, cur, a, b));
    }
}

/// A change of coordinates that keeps every distance keeps the relation.
proof fn lemma_iso_map(orig: Seq<(usize, (i64, i64))>, cur: Seq<(usize, (i64, i64))>, cur2: Seq<(usize, (i64, i64))>)
    requires
        iso(orig, cur),
        cur2.len() == cur.len(),
        forall|p: int| 0 <= p < cur.len() ==> (#[trigger] cur2[p]).0 == cur[p].0,
        forall|p: int, q: int|
            0 <= p < cur.len() && 0 <= q < cur.len() ==> manhattan((#[trigger] cur2[p]).1, (#[trigger] cur2[q]).1)
                == manhattan(cur[p].1, cur[q].1),
    ensures
        iso(orig, cur2),
{
    assert forall|p: int, q: int| 0 <= p < cur2.len() && 0 <= q < cur2.len() implies #[trigger] iso_pair(orig, cur2, p, q) by {
        assert(iso_pair(orig, cur, p, q));
        assert(manhattan(cur2[p].1, cur2[q].1) == manhattan(cur[p].1, cur[q].1));
        assert(cur2[p].0 == cur[p].0 && cur2[q].0 == cur[q].0);
    }
}

/// The points with indices `i` and `j` lie `d` apart.
pub open spec fn point_dist(pts: Seq<(usize, (i64, i64))>, i: int, j: int, d: int) -> bool {
    exists|p: int, q: int|
        0 <= p < pts.len() && 0 <= q < pts.len() && #[trigger] pts[p].0 == i && #[trigger] pts[q].0 == j && d
            == manhattan(pts[p].1, pts[q].1)
}

/// Points pushed one by one, each with its position as index.
pub struct ManhattanMST {
    points: Vec<(usize, (i64, i64))>,
}

impl ManhattanMST {
    /// The points with their indices, in their current order and coordinates.
    pub closed spec fn points(&self) -> Seq<(usize, (i64, i64))> {
        self.points@
    }

    /// Indices below the number of points, coordinates small, not too many points.
    pub open spec fn well_formed(&self) -> bool {
        &&& points_small(self.points())
        &&& self.points().len() <= usize::MAX / 4
        &&& forall|k: int| 0 <= k < self.points().len() ==> (#[trigger] self.points()[k]).0 < self.points().len()
    }

    /// No points.
    pub fn new() -> (r: Self)
        ensures
            r.well_formed(),
            r.points() == Seq::<(usize, (i64, i64))>::empty(),
    {
        ManhattanMST { points: Vec::new() }
    }

    /// Add the point `pt = (y, x)`, with the next index.
    pub fn push(&mut self, pt: (i64, i64))
        requires
            old(self).well_formed(),
            old(self).points().len() < usize::MAX / 4,
            coord_small(pt.0),
            coord_small(pt.1),
        ensures
            final(self).well_formed(),
            final(self).points() == old(self).points().push((old(self).points().len() as usize, pt)),
    {
        let k = self.points.len();
        self.points.push((k, pt));
    }

    /// Kruskal's method: take the candidates by increasing length, keeping each that joins two
    /// trees; returns the adjacency lists `(length, other end)` of the forest.
    fn mst(edges: Vec<Candidate>, n: usize) -> (g: Vec<Vec<(i64, usize)>>)
        requires
            forall|k: int| 0 <= k < edges@.len() ==> (#[trigger] edges@[k]).a < n && edges@[k].b < n,
        ensures
            g@.len() == n,
            forall|i: int, k: int|
                #![trigger g@[i]@[k]]
                0 <= i < n && 0 <= k < g@[i]@.len() ==> g@[i]@[k].1 < n && (edges@.contains(
                    Candidate { dist: g@[i]@[k].0, a: i as usize, b: g@[i]@[k].1 },
                ) || edges@.contains(Candidate { dist: g@[i]@[k].0, a: g@[i]@[k].1, b: i as usize })),
            forall|i: int, k: int|
                #![trigger g@[i]@[k]]
                0 <= i < n && 0 <= k < g@[i]@.len() ==> g@[g@[i]@[k].1 as int]@.contains((g@[i]@[k].0, i as usize)),
    {
        broadcast use vstd::seq_lib::group_to_multiset_ensures;

        let ghost e0 = edges@;
        let mut edges = edges;
        sort_vec(&mut edges);
        let mut uf = UnionFind::new(n);
        let mut g: Vec<Vec<(i64, usize)>> = Vec::new();
        for k in 0..n
            invariant
                g@.len() == k,
                forall|i: int| 0 <= i < k ==> (#[trigger] g@[i])@.len() == 0,
        {
            g.push(Vec::new());
        }
        let m = edges.len();
        proof {
            assert forall|t: int| 0 <= t < m implies (#[trigger] edges@[t]).a < n && edges@[t].b < n by {
                assert(edges@.contains(edges@[t]));
                assert(e0.to_multiset().count(edges@[t]) > 0);
                assert(e0.contains(edges@[t]));
            }
            assert forall|v: int| 0 <= v < n implies #[trigger] uf.weight(v) == 0 by {
                assert(uf.rep(v) == v);
            }
        }
        for k in 0..m
            invariant
                m == edges@.len(),
                edges@.to_multiset() == e0.to_multiset(),
                forall|t: int| 0 <= t < m ==> (#[trigger] edges@[t]).a < n && edges@[t].b < n,
                uf.well_formed(),
                uf.size() == n,
                forall|v: int| 0 <= v < n ==> #[trigger] uf.weight(v) == 0,
                g@.len() == n,
                forall|i: int, t: int|
                    #![trigger g@[i]@[t]]
                    0 <= i < n && 0 <= t < g@[i]@.len() ==> g@[i]@[t].1 < n && (edges@.contains(
                        Candidate { dist: g@[i]@[t].0, a: i as usize, b: g@[i]@[t].1 },
                    ) || edges@.contains(Candidate { dist: g@[i]@[t].0, a: g@[i]@[t].1, b: i as usize })),
                forall|i: int, t: int|
                    #![trigger g@[i]@[t]]
                    0 <= i < n && 0 <= t < g@[i]@.len() ==> g@[g@[i]@[t].1 as int]@.contains((g@[i]@[t].0, i as usize)),
        {
            let e = edges[k];
            if !uf.same(e.a, e.b) {
                uf.unite(e.a, e.b);
                let ghost g_before = g@;
                g[e.a].push((e.dist, e.b));
                g[e.b].push((e.dist, e.a));
                proof {
                    assert(edges@[k as int] == e);
                    assert forall|i: int, t: int|
                        #![trigger g@[i]@[t]]
                        0 <= i < n && 0 <= t < g@[i]@.len() implies g@[i]@[t].1 < n && (edges@.contains(
                            Candidate { dist: g@[i]@[t].0, a: i as usize, b: g@[i]@[t].1 },
                        ) || edges@.contains(Candidate { dist: g@[i]@[t].0, a: g@[i]@[t].1, b: i as usize })) by {
                        if t < g_before[i]@.len() {
                            assert(g@[i]@[t] == g_before[i]@[t]);
                        }
                    }
                    assert forall|i: int, t: int|
                        #![trigger g@[i]@[t]]
                        0 <= i < n && 0 <= t < g@[i]@.len() implies g@[g@[i]@[t].1 as int]@.contains((g@[i]@[t].0, i as usize)) by {
                        let j = g@[i]@[t].1 as int;
                        if t < g_before[i]@.len() {
                            assert(g@[i]@[t] == g_before[i]@[t]);
                            let w = choose|w: int| 0 <= w < g_before[j]@.len() && g_before[j]@[w] == (g@[i]@[t].0, i as usize);
                            assert(g@[j]@[w] == g_before[j]@[w]);
                        } else if i == e.a {
                            assert(g@[j]@[g@[j]@.len() - 1] == (e.dist, e.a));
                        } else {
                            assert(g@[j]@[g_before[j]@.len() as int] == (e.dist, e.b));
                        }
                    }
                }
            }
        }
        proof {
            assert forall|c: Candidate| edges@.contains(c) implies e0.contains(c) by {
                assert(edges@.to_multiset().count(c) > 0);
            }
        }
        g
    }

    /// The candidate edges of all eight octants, then Kruskal's method on them; returns the
    /// adjacency lists `(length, other end)` of the tree, by point index. The points are
    /// reordered and their coordinates reflected on the way.
    pub fn minimum_spanning_tree(&mut self) -> (g: Vec<Vec<(i64, usize)>>)
        requires
            old(self).well_formed(),
        ensures
            final(self).well_formed(),
            final(self).points().len() == old(self).points().len(),
            g@.len() == old(self).points().len(),
            forall|i: int, k: int|
                #![trigger g@[i]@[k]]
                0 <= i < g@.len() && 0 <= k < g@[i]@.len() ==> g@[i]@[k].1 < g@.len() && point_dist(
                    old(self).points(),
                    i,
                    g@[i]@[k].1 as int,
                    g@[i]@[k].0 as int,
                ),
            forall|i: int, k: int|
                #![trigger g@[i]@[k]]
                0 <= i < g@.len() && 0 <= k < g@[i]@.len() ==> g@[g@[i]@[k].1 as int]@.contains((g@[i]@[k].0, i as usize)),
    {
        let n = self.points.len();
        let ghost orig = self.points@;
        proof {
            lemma_iso_refl(orig);
        }
        let mut edges: Vec<Candidate> = Vec::new();
        for h0 in 0..2usize
            invariant
                self.well_formed(),
                self.points@.len() == n,
                iso(orig, self.points@),
                forall|k: int| 0 <= k < edges@.len() ==> candidate_ok(orig, #[trigger] edges@[k]) && edges@[k].a < n && edges@[k].b < n,
        {
            for h1 in 0..2usize
                invariant
                    self.well_formed(),
                    self.points@.len() == n,
                    iso(orig, self.points@),
                    forall|k: int| 0 <= k < edges@.len() ==> candidate_ok(orig, #[trigger] edges@[k]) && edges@[k].a < n && edges@[k].b < n,
            {
                let mut yv: Vec<i64> = Vec::new();
                for k in 0..n
                    invariant
                        self.points@.len() == n,
                        yv@ == ys(self.points@).subrange(0, k as int),
                {
                    yv.push(self.points[k].1.0);
                }
                assert(yv@ == ys(self.points@));
                let y_enc = yv.compress_encoder();
                for h2 in 0..2usize
                    invariant
                        self.well_formed(),
                        self.points@.len() == n,
                        iso(orig, self.points@),
                        forall|k: int| 0 <= k < edges@.len() ==> candidate_ok(orig, #[trigger] edges@[k]) && edges@[k].a < n && edges@[k].b < n,
                        y_enc@.dom() == yv@.to_set(),
                        forall|y: i64| #[trigger] y_enc@.contains_key(y) ==> y_enc@[y] == rank(yv@, y),
                        ys(self.points@).to_set() == yv@.to_set(),
                {
                    let ghost before_sort = self.points@;
                    sort_by_key(&mut self.points);
                    proof {
                        lemma_iso_perm(orig, before_sort, self.points@);
                        lemma_ys_perm(before_sort, self.points@);
                        lemma_perm_indices(before_sort, self.points@);
                    }
                    let ghost e_before = edges@;
                    sweep(&self.points, &y_enc, &mut edges);
                    proof {
                        assert forall|k: int| 0 <= k < edges@.len() implies candidate_ok(orig, #[trigger] edges@[k]) && edges@[k].a < n && edges@[k].b < n by {
                            if k < e_before.len() {
                                assert(edges@[k] == e_before[k]);
                            } else {
                                lemma_iso_candidate(orig, self.points@, edges@[k]);
                                let (p, q) = choose|p: int, q: int| #[trigger] joins(orig, edges@[k], p, q);
                                assert(orig[p].0 == edges@[k].a);
                                let (p2, q2) = choose|p: int, q: int| #[trigger] joins(self.points@, edges@[k], p, q);
                                assert(self.points@[p2].0 < n && self.points@[q2].0 < n);
                            }
                        }
                    }
                    if h2 == 0 {
                        Self::reflect(&mut self.points, 0, Ghost(orig));
                    }
                }
                if h1 == 0 {
                    Self::reflect(&mut self.points, 1, Ghost(orig));
                }
            }
            if h0 == 0 {
                Self::reflect(&mut self.points, 2, Ghost(orig));
            }
        }
        let g = Self::mst(edges, n);
        proof {
            assert forall|i: int, k: int|
                #![trigger g@[i]@[k]]
                0 <= i < g@.len() && 0 <= k < g@[i]@.len() implies g@[i]@[k].1 < g@.len() && point_dist(
                    orig,
                    i,
                    g@[i]@[k].1 as int,
                    g@[i]@[k].0 as int,
                ) by {
                let c1 = Candidate { dist: g@[i]@[k].0, a: i as usize, b: g@[i]@[k].1 };
                let c2 = Candidate { dist: g@[i]@[k].0, a: g@[i]@[k].1, b: i as usize };
                if edges@.contains(c1) {
                    let t = choose|t: int| 0 <= t < edges@.len() && edges@[t] == c1;
                    assert(candidate_ok(orig, edges@[t]));
                    let (p, q) = choose|p: int, q: int| #[trigger] joins(orig, c1, p, q);
                    assert(orig[p].0 == i && orig[q].0 == g@[i]@[k].1);
                } else {
                    let t = choose|t: int| 0 <= t < edges@.len() && edges@[t] == c2;
                    assert(candidate_ok(orig, edges@[t]));
                    let (p, q) = choose|p: int, q: int| #[trigger] joins(orig, c2, p, q);
                    assert(orig[q].0 == i && orig[p].0 == g@[i]@[k].1);
                    assert(manhattan(orig[q].1, orig[p].1) == manhattan(orig[p].1, orig[q].1));
                }
            }
        }
        g
    }

    /// Reflect every point: `x` to `-x` (`axis == 0`), `y` to `-y` (`axis == 1`), or swap
    /// `y` and `x` (otherwise). Distances stay.
    fn reflect(pts: &mut Vec<(usize, (i64, i64))>, axis: usize, Ghost(orig): Ghost<Seq<(usize, (i64, i64))>>)
        requires
            points_small(old(pts)@),
            iso(orig, old(pts)@),
        ensures
            points_small(final(pts)@),
            iso(orig, final(pts)@),
            final(pts)@.len() == old(pts)@.len(),
            forall|k: int| 0 <= k < old(pts)@.len() ==> (#[trigger] final(pts)@[k]).0 == old(pts)@[k].0,
            forall|k: int| 0 <= k < old(pts)@.len() ==> #[trigger] final(pts)@[k] == reflected(old(pts)@[k], axis),
            axis == 0 ==> ys(final(pts)@) == ys(old(pts)@),
    {
        let n = pts.len();
        for k in 0..n
            invariant
                n == pts@.len(),
                n == old(pts)@.len(),
                forall|t: int| k <= t < n ==> #[trigger] pts@[t] == old(pts)@[t],
                forall|t: int| 0 <= t < k ==> #[trigger] pts@[t] == reflected(old(pts)@[t], axis),
                points_small(old(pts)@),
        {
            let (i, (y, x)) = pts[k];
            proof {
                assert(pts@[k as int] == old(pts)@[k as int]);
                assert(coord_small(y) && coord_small(x));
            }
            let r = if axis == 0 {
                (i, (y, -x))
            } else if axis == 1 {
                (i, (-y, x))
            } else {
                (i, (x, y))
            };
            pts.set(k, r);
        }
        proof {
            assert forall|p: int, q: int| 0 <= p < n && 0 <= q < n implies manhattan((#[trigger] pts@[p]).1, (#[trigger] pts@[q]).1)
                == manhattan(old(pts)@[p].1, old(pts)@[q].1) by {
                assert(pts@[p] == reflected(old(pts)@[p], axis));
                assert(pts@[q] == reflected(old(pts)@[q], axis));
            }
            lemma_iso_map(orig, old(pts)@, pts@);
            assert forall|t: int| 0 <= t < n implies coord_small((#[trigger] pts@[t]).1.0) && coord_small(pts@[t].1.1) by {
                assert(pts@[t] == reflected(old(pts)@[t], axis));
            }
            if axis == 0 {
                assert forall|t: int| 0 <= t < n implies #[trigger] ys(pts@)[t] == ys(old(pts)@)[t] by {
                    assert(pts@[t] == reflected(old(pts)@[t], axis));
                }
                assert(ys(pts@) =~= ys(old(pts)@));
            }
        }
    }
}

/// A point reflected as `reflect` does.
pub open spec fn reflected(p: (usize, (i64, i64)), axis: usize) -> (usize, (i64, i64)) {
    if axis == 0 {
        (p.0, (p.1.0, (-p.1.1) as i64))
    } else if axis == 1 {
        (p.0, ((-p.1.0) as i64, p.1.1))
    } else {
        (p.0, (p.1.1, p.1.0))
    }
}

/// Reordering the points keeps the set of their `y` coordinates.
proof fn lemma_ys_perm(a: Seq<(usize, (i64, i64))>, b: Seq<(usize, (i64, i64))>)
    requires
        b.to_multiset() == a.to_multiset(),
    ensures
        ys(b).to_set() == ys(a).to_set(),
{
    broadcast use vstd::seq_lib::group_to_multiset_ensures;

    assert forall|y: i64| ys(b).to_set().contains(y) <==> ys(a).to_set().contains(y) by {
        if ys(b).to_set().contains(y) {
            let k = choose|k: int| 0 <= k < ys(b).len() && ys(b)[k] == y;
            assert(b.contains(b[k]));
            assert(a.to_multiset().count(b[k]) > 0);
            assert(a.contains(b[k]));
            let j = choose|j: int| 0 <= j < a.len() && a[j] == b[k];
            assert(ys(a)[j] == y);
        }
        if ys(a).to_set().contains(y) {
            let k = choose|k: int| 0 <= k < ys(a).len() && ys(a)[k] == y;
            assert(a.contains(a[k]));
            assert(b.to_multiset().count(a[k]) > 0);
            assert(b.contains(a[k]));
            let j = choose|j: int| 0 <= j < b.len() && b[j] == a[k];
            assert(ys(b)[j] == y);
        }
    }
    assert(ys(b).to_set() =~= ys(a).to_set());
}

/// Reordering the points keeps every index below the bound.
proof fn lemma_perm_indices(a: Seq<(usize, (i64, i64))>, b: Seq<(usize, (i64, i64))>)
    requires
        b.to_multiset() == a.to_multiset(),
        forall|k: int| 0 <= k < a.len() ==> (#[trigger] a[k]).0 < a.len(),
    ensures
        forall|k: int| 0 <= k < b.len() ==> (#[trigger] b[k]).0 < a.len(),
{
    broadcast use vstd::seq_lib::group_to_multiset_ensures;

    assert forall|k: int| 0 <= k < b.len() implies (#[trigger] b[k]).0 < a.len() by {
        assert(b.contains(b[k]));
        assert(a.to_multiset().count(b[k]) > 0);
        assert(a.contains(b[k]));
    }
}

} // verus!