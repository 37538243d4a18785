//! Disjoint-set union with weighted ("potential") edges.
use vstd::prelude::*;

verus! {

/// The representative reached from `v` by following parent links, where each link
/// goes to a node of strictly greater height bounded by `bound`.
pub open spec fn uf_find(par: Seq<usize>, h: Seq<nat>, bound: nat, v: int) -> int
    decreases bound - h[v],
{
    if 0 <= v < par.len() && v < h.len() && par[v] != v && par[v] < h.len() && h[v] < h[
        par[v] as int] <= bound {
        uf_find(par, h, bound, par[v] as int)
    } else {
        v
    }
}

/// The sum of the potentials on the path from `v` to its representative.
pub open spec fn uf_weight(par: Seq<usize>, pot: Seq<i64>, h: Seq<nat>, bound: nat, v: int) -> int
    decreases bound - h[v],
{
    if 0 <= v < par.len() && v < h.len() && par[v] != v && par[v] < h.len() && h[v] < h[
        par[v] as int] <= bound {
        pot[v] + uf_weight(par, pot, h, bound, par[v] as int)
    } else {
        0
    }
}

/// How many entries of `s` equal `r`.
pub open spec fn count_of(s: Seq<int>, r: int) -> nat
    decreases s.len(),
{
    if s.len() == 0 {
        0
    } else {
        count_of(s.drop_last(), r) + if s.last() == r {
            1nat
        } else {
            0nat
        }
    }
}

/// How many indices `i < s.len()` satisfy `s[i] == i`.
pub open spec fn count_fixed(s: Seq<int>) -> nat
    decreases s.len(),
{
    if s.len() == 0 {
        0
    } else {
        count_fixed(s.drop_last()) + if s.last() == s.len() - 1 {
            1nat
        } else {
            0nat
        }
    }
}

/// Replace every `from` in `s` by `into`.
proof fn lemma_two_fixed(s: Seq<int>, i: int, j: int)
    requires
        0 <= i < s.len(),
        0 <= j < s.len(),
        i != j,
        s[i] == i,
        s[j] == j,
    ensures
        count_fixed(s) >= 2,
    decreases s.len(),
{
    let n = s.len() - 1;
    let t = s.drop_last();
    if i == n {
        lemma_one_fixed(t, j);
    } else if j == n {
        lemma_one_fixed(t, i);
    } else {
        lemma_two_fixed(t, i, j);
    }
}

proof fn lemma_one_fixed(s: Seq<int>, i: int)
    requires
        0 <= i < s.len(),
        s[i] == i,
    ensures
        count_fixed(s) >= 1,
    decreases s.len(),
{
    if i < s.len() - 1 {
        lemma_one_fixed(s.drop_last(), i);
    }
}

pub open spec fn merge_label(s: Seq<int>, from: int, into: int) -> Seq<int> {
    Seq::new(s.len(), |i: int| if s[i] == from { into } else { s[i] })
}

proof fn lemma_count_merge(s: Seq<int>, from: int, into: int, r: int)
    requires
        from != into,
    ensures
        count_of(merge_label(s, from, into), r) == if r == into {
            count_of(s, into) + count_of(s, from)
        } else if r == from {
            0
        } else {
            count_of(s, r)
        },
    decreases s.len(),
{
    if s.len() > 0 {
        assert(merge_label(s, from, into).drop_last() =~= merge_label(s.drop_last(), from, into));
        lemma_count_merge(s.drop_last(), from, into, r);
    }
}

proof fn lemma_count_two(s: Seq<int>, a: int, b: int)
    requires
        a != b,
    ensures
        count_of(s, a) + count_of(s, b) <= s.len(),
    decreases s.len(),
{
    if s.len() > 0 {
        lemma_count_two(s.drop_last(), a, b);
    }
}

proof fn lemma_count_fixed_pointwise(s: Seq<int>, t: Seq<int>, from: int)
    requires
        s.len() == t.len(),
        forall|i: int| 0 <= i < s.len() && i != from ==> (t[i] == i) == (s[i] == i),
        0 <= from < s.len() ==> s[from] == from && t[from] != from,
    ensures
        count_fixed(t) + (if 0 <= from < s.len() {
            1int
        } else {
            0int
        }) == count_fixed(s),
    decreases s.len(),
{
    if s.len() > 0 {
        lemma_count_fixed_pointwise(s.drop_last(), t.drop_last(), from);
    }
}

proof fn lemma_count_fixed_merge(s: Seq<int>, from: int, into: int)
    requires
        0 <= from < s.len(),
        0 <= into < s.len(),
        s[from] == from,
        s[into] == into,
        from != into,
    ensures
        count_fixed(merge_label(s, from, into)) + 1 == count_fixed(s),
{
    lemma_count_fixed_pointwise(s, merge_label(s, from, into), from);
}

/// The shape conditions on parent links and heights.
pub open spec fn uf_shape(par: Seq<usize>, h: Seq<nat>, bound: nat) -> bool {
    &&& h.len() == par.len()
    &&& forall|v: int| 0 <= v < par.len() ==> #[trigger] par[v] < par.len()
    &&& forall|v: int| 0 <= v < par.len() ==> #[trigger] h[v] <= bound
    &&& forall|v: int| 0 <= v < par.len() && #[trigger] par[v] != v ==> h[v] < h[par[v] as int]
}

proof fn lemma_find_root(par: Seq<usize>, h: Seq<nat>, bound: nat, v: int)
    requires
        uf_shape(par, h, bound),
        0 <= v < par.len(),
    ensures
        0 <= uf_find(par, h, bound, v) < par.len(),
        par[uf_find(par, h, bound, v)] == uf_find(par, h, bound, v),
        h[uf_find(par, h, bound, v)] >= h[v],
        par[v] != v ==> h[uf_find(par, h, bound, v)] > h[v],
    decreases bound - h[v],
{
    if par[v] != v {
        lemma_find_root(par, h, bound, par[v] as int);
    }
}

proof fn lemma_compress_point(
    par: Seq<usize>,
    pot: Seq<i64>,
    h: Seq<nat>,
    bound: nat,
    v: int,
    u: int,
)
    requires
        uf_shape(par, h, bound),
        pot.len() == par.len(),
        0 <= v < par.len(),
        par[v] != v,
        i64::MIN <= uf_weight(par, pot, h, bound, v) <= i64::MAX,
    ensures
        ({
            let r = uf_find(par, h, bound, v);
            let par2 = par.update(v, r as usize);
            let pot2 = pot.update(v, uf_weight(par, pot, h, bound, v) as i64);
            &&& uf_find(par2, h, bound, u) == uf_find(par, h, bound, u)
            &&& uf_weight(par2, pot2, h, bound, u) == uf_weight(par, pot, h, bound, u)
        }),
    decreases bound - h[u],
{
    let r = uf_find(par, h, bound, v);
    lemma_find_root(par, h, bound, v);
    let par2 = par.update(v, r as usize);
    let pot2 = pot.update(v, uf_weight(par, pot, h, bound, v) as i64);
    if 0 <= u < par.len() {
        if u == v {
            assert(par2[r] == r);
            assert(uf_find(par2, h, bound, r) == r);
            assert(uf_weight(par2, pot2, h, bound, r) == 0);
        } else if par[u] != u {
            lemma_compress_point(par, pot, h, bound, v, par[u] as int);
        }
    }
}

proof fn lemma_union_point(
    par: Seq<usize>,
    pot: Seq<i64>,
    h: Seq<nat>,
    bound: nat,
    rf: int,
    ri: int,
    d: int,
    u: int,
)
    requires
        uf_shape(par, h, bound),
        pot.len() == par.len(),
        0 <= rf < par.len(),
        0 <= ri < par.len(),
        rf != ri,
        par[rf] == rf,
        par[ri] == ri,
        i64::MIN <= d <= i64::MAX,
    ensures
        ({
            let hri = if h[ri] > h[rf] { h[ri] } else { h[rf] + 1 };
            let h2 = h.update(ri, hri);
            let bound2 = if bound > hri { bound } else { hri };
            let par2 = par.update(rf, ri as usize);
            let pot2 = pot.update(rf, d as i64);
            &&& uf_shape(par2, h2, bound2)
            &&& uf_find(par2, h2, bound2, u) == if uf_find(par, h, bound, u) == rf {
                ri
            } else {
                uf_find(par, h, bound, u)
            }
            &&& uf_weight(par2, pot2, h2, bound2, u) == uf_weight(par, pot, h, bound, u) + if uf_find(
                par,
                h,
                bound,
                u,
            ) == rf {
                d
            } else {
                0
            }
        }),
    decreases (if bound > h[ri] && bound > h[rf] { bound } else { h[rf] + h[ri] + 1 }) - h.update(
        ri,
        if h[ri] > h[rf] { h[ri] } else { h[rf] + 1 },
    )[u],
{
    let hri = if h[ri] > h[rf] { h[ri] } else { h[rf] + 1 };
    let h2 = h.update(ri, hri);
    let bound2 = if bound > hri { bound } else { hri };
    let par2 = par.update(rf, ri as usize);
    let pot2 = pot.update(rf, d as i64);
    assert(uf_shape(par2, h2, bound2)) by {
        assert forall|v: int| 0 <= v < par2.len() && #[trigger] par2[v] != v implies h2[v] < h2[par2[v] as int] by {
            if v == rf {
            } else {
                assert(par2[v] == par[v]);
                assert(v != ri);
            }
        }
    }
    if 0 <= u < par.len() {
        if u == rf {
            assert(uf_find(par2, h2, bound2, ri) == ri);
            assert(uf_weight(par2, pot2, h2, bound2, ri) == 0);
        } else if par[u] != u {
            assert(u != ri);
            assert(h2[u] < h2[par[u] as int]);
            lemma_union_point(par, pot, h, bound, rf, ri, d, par[u] as int);
        }
    }
}

/// A union-find forest over `0..n`. Each node carries a potential relative to its parent,
/// so that the weight of a node (relative to its representative) can be queried.
pub struct UnionFind {
    pub graph: Vec<Vec<usize>>,
    potential: Vec<i64>,
    parents: Vec<usize>,
    grp_sz: Vec<usize>,
    grp_num: usize,
    height: Ghost<Seq<nat>>,
    hbound: Ghost<nat>,
}

impl UnionFind {
    /// Number of nodes.
    pub closed spec fn size(&self) -> nat {
        self.parents.len() as nat
    }

    /// The recorded edges of each node, in insertion order.
    pub closed spec fn adjacency(&self) -> Seq<Seq<usize>> {
        self.graph@.map_values(|e: Vec<usize>| e@)
    }

    /// The representative of the group of `v`.
    pub closed spec fn rep(&self, v: int) -> int {
        uf_find(self.parents@, self.height@, self.hbound@, v)
    }

    /// The potential of `v` relative to the representative of its group.
    pub closed spec fn weight(&self, v: int) -> int {
        uf_weight(self.parents@, self.potential@, self.height@, self.hbound@, v)
    }

    /// The representatives of all nodes, in order.
    pub open spec fn reps(&self) -> Seq<int> {
        Seq::new(self.size(), |v: int| self.rep(v))
    }

    /// `a` and `b` are in the same group.
    pub open spec fn spec_same(&self, a: int, b: int) -> bool {
        self.rep(a) == self.rep(b)
    }

    /// Number of nodes in the group of `v`.
    pub open spec fn spec_group_size(&self, v: int) -> nat {
        count_of(self.reps(), self.rep(v))
    }

    /// Number of groups: the nodes that are their own representative.
    pub open spec fn spec_group_num(&self) -> nat {
        count_fixed(self.reps())
    }

    /// `x` fits in an `i64`.
    pub open spec fn fits_i64(x: int) -> bool {
        i64::MIN <= x <= i64::MAX
    }

    /// The internal invariant.
    pub closed spec fn well_formed(&self) -> bool {
        let n = self.parents.len();
        let par = self.parents@;
        let h = self.height@;
        &&& self.potential.len() == n
        &&& self.grp_sz.len() == n
        &&& self.graph.len() == n
        &&& h.len() == n
        &&& forall|v: int| 0 <= v < n ==> #[trigger] par[v] < n
        &&& forall|v: int| 0 <= v < n ==> #[trigger] h[v] <= self.hbound@
        &&& forall|v: int|
            0 <= v < n && #[trigger] par[v] != v ==> h[v] < h[par[v] as int]
        &&& forall|v: int| 0 <= v < n && #[trigger] par[v] == v ==> self.potential@[v] == 0
        &&& forall|v: int| 0 <= v < n ==> Self::fits_i64(#[trigger] self.weight(v))
        &&& forall|v: int|
            0 <= v < n && #[trigger] par[v] == v ==> self.grp_sz@[v] == count_of(
                self.reps(),
                v,
            )
        &&& self.grp_num == self.spec_group_num()
    }

    /// `v` points straight at its representative and stores its weight.
    pub closed spec fn compressed(&self, v: int) -> bool {
        &&& self.parents@[v] == self.rep(v)
        &&& self.potential@[v] == self.weight(v)
    }

    proof fn lemma_rep_root(&self, v: int)
        requires
            self.well_formed(),
            0 <= v < self.size(),
        ensures
            0 <= self.rep(v) < self.size(),
            self.parents@[self.rep(v)] == self.rep(v),
            self.height@[self.rep(v)] >= self.height@[v],
            self.parents@[v] != v ==> self.height@[self.rep(v)] > self.height@[v],
            self.parents@[v] != v ==> self.rep(v) == self.rep(self.parents@[v] as int),
            self.parents@[v] != v ==> self.weight(v) == self.potential@[v] + self.weight(
                self.parents@[v] as int,
            ),
            self.parents@[v] == v ==> self.rep(v) == v && self.weight(v) == 0,
        decreases self.hbound@ - self.height@[v],
    {
        let p = self.parents@[v] as int;
        if p != v {
            assert(self.parents@[v] < self.size());
            assert(self.height@[p] <= self.hbound@);
            self.lemma_rep_root(p);
        }
    }

    /// Group sizes across a merge: with `after` related to `before` as `unite(into, from)`
    /// leaves it, the merged group has the size of the two groups together (or of the one
    /// group, when they were already one), and every other group keeps its size.
    pub proof fn lemma_unite_group_size(before: &Self, after: &Self, into: int, from: int, v: int)
        requires
            before.well_formed(),
            after.size() == before.size(),
            0 <= into < before.size(),
            0 <= from < before.size(),
            0 <= v < before.size(),
            forall|x: int|
                0 <= x < before.size() ==> #[trigger] after.rep(x) == if before.rep(x) == before.rep(from) {
                    before.rep(into)
                } else {
                    before.rep(x)
                },
        ensures
            after.spec_group_size(v) == if before.spec_same(v, into) || before.spec_same(v, from) {
                if before.spec_same(into, from) {
                    before.spec_group_size(into)
                } else {
                    before.spec_group_size(into) + before.spec_group_size(from)
                }
            } else {
                before.spec_group_size(v)
            },
    {
        let ri = before.rep(into);
        let rf = before.rep(from);
        if ri == rf {
            assert(after.reps() =~= before.reps());
        } else {
            assert(after.reps() =~= merge_label(before.reps(), rf, ri));
            lemma_count_merge(before.reps(), rf, ri, after.rep(v));
        }
    }

    /// With a single group, every two nodes are in the same group.
    pub proof fn lemma_single_group(&self)
        requires
            self.well_formed(),
            self.spec_group_num() == 1,
        ensures
            forall|a: int, b: int| 0 <= a < self.size() && 0 <= b < self.size() ==> #[trigger] self.spec_same(a, b),
    {
        assert forall|a: int, b: int| 0 <= a < self.size() && 0 <= b < self.size() implies #[trigger] self.spec_same(a, b) by {
            self.lemma_rep_root(a);
            self.lemma_rep_root(b);
            let ra = self.rep(a);
            let rb = self.rep(b);
            self.lemma_rep_root(ra);
            self.lemma_rep_root(rb);
            if ra != rb {
                lemma_two_fixed(self.reps(), ra, rb);
            }
        }
    }

    /// A tree of `sz` singleton groups.
    pub fn new(sz: usize) -> (uf: Self)
        ensures
            uf.well_formed(),
            uf.size() == sz,
            forall|v: int| 0 <= v < sz ==> #[trigger] uf.rep(v) == v && uf.weight(v) == 0,
            uf.adjacency() == Seq::new(sz as nat, |v: int| Seq::<usize>::empty()),
    {
        let mut graph: Vec<Vec<usize>> = Vec::new();
        let mut potential: Vec<i64> = Vec::new();
        let mut parents: Vec<usize> = Vec::new();
        let mut grp_sz: Vec<usize> = Vec::new();
        let mut i: usize = 0;
        while i < sz
            invariant
                i <= sz,
                graph.len() == i,
                potential.len() == i,
                parents.len() == i,
                grp_sz.len() == i,
                forall|v: int| 0 <= v < i ==> (#[trigger] graph@[v])@.len() == 0,
                forall|v: int| 0 <= v < i ==> #[trigger] potential@[v] == 0,
                forall|v: int| 0 <= v < i ==> #[trigger] parents@[v] == v,
                forall|v: int| 0 <= v < i ==> #[trigger] grp_sz@[v] == 1,
            decreases sz - i,
        {
            graph.push(Vec::new());
            potential.push(0);
            parents.push(i);
            grp_sz.push(1);
            i += 1;
        }
        let uf = UnionFind {
            graph,
            potential,
            parents,
            grp_sz,
            grp_num: sz,
            height: Ghost(Seq::new(sz as nat, |v: int| 0nat)),
            hbound: Ghost(0nat),
        };
        assert forall|v: int| 0 <= v < sz implies #[trigger] uf.rep(v) == v && uf.weight(v) == 0 by {}
        assert(uf.reps() =~= ident_seq(sz as nat));
        assert forall|v: int| 0 <= v < sz implies #[trigger] uf.adjacency()[v] =~= Seq::<
            usize,
        >::empty() by {}
        assert(uf.adjacency() =~= Seq::new(sz as nat, |v: int| Seq::<usize>::empty()));
        proof {
            lemma_identity_counts(sz as nat);
        }
        uf
    }

    /// Same nodes, same groups, same weights and same edges.
    pub open spec fn same_model(&self, other: &Self) -> bool {
        &&& self.size() == other.size()
        &&& forall|v: int| 0 <= v < self.size() ==> #[trigger] self.rep(v) == other.rep(v)
        &&& forall|v: int| 0 <= v < self.size() ==> #[trigger] self.weight(v) == other.weight(v)
        &&& self.adjacency() == other.adjacency()
    }

    /// The measure that bounds the length of the path from `v` to its representative.
    pub closed spec fn root_measure(&self, v: int) -> int {
        self.hbound@ - self.height@[v]
    }

    /// What a call that only compresses paths keeps of the previous state.
    pub closed spec fn compress_frame(&self, prev: &Self, v: int) -> bool {
        &&& self.height == prev.height
        &&& self.hbound == prev.hbound
        &&& self.grp_sz == prev.grp_sz
        &&& self.grp_num == prev.grp_num
        &&& self.graph == prev.graph
        &&& self.parents.len() == prev.parents.len()
        &&& self.potential.len() == prev.potential.len()
        &&& forall|u: int|
            0 <= u < self.size() ==> (self.parents@[u] == prev.parents@[u] && self.potential@[u]
                == prev.potential@[u]) || #[trigger] self.compressed(u)
        &&& forall|u: int|
            0 <= u < self.size() && prev.height@[u] < prev.height@[v] ==> self.parents@[u]
                == prev.parents@[u] && self.potential@[u] == prev.potential@[u]
    }

    /// The representative of `v`; compresses the path from `v`.
    pub fn root(&mut self, v: usize) -> (r: usize)
        requires
            old(self).well_formed(),
            v < old(self).size(),
        ensures
            final(self).well_formed(),
            r == old(self).rep(v as int),
            final(self).same_model(old(self)),
            final(self).compressed(v as int),
            final(self).compress_frame(old(self), v as int),
        decreases old(self).root_measure(v as int),
    {
        proof {
            self.lemma_rep_root(v as int);
        }
        if v == self.parents[v] {
            v
        } else {
            let pv = self.parents[v];
            assert(pv < self.size());
            assert(self.height@[pv as int] <= self.hbound@);
            let ghost s0 = *self;
            let rv = self.root(pv);
            let ghost s1 = *self;
            proof {
                s0.lemma_rep_root(pv as int);
                assert(s1.weight(v as int) == s0.weight(v as int));
                assert(s1.parents@[v as int] == pv);
            }
            let pot_v = self.potential[v];
            let pot_pv = self.potential[pv];
            assert(pot_v + pot_pv == s1.weight(v as int));
            self.potential.set(v, pot_v + pot_pv);
            self.parents.set(v, rv);
            proof {
                lemma_find_root(s1.parents@, s1.height@, s1.hbound@, v as int);
                assert forall|u: int| 0 <= u < self.size() implies #[trigger] self.rep(u) == s1.rep(u) by {
                    lemma_compress_point(s1.parents@, s1.potential@, s1.height@, s1.hbound@, v as int, u);
                }
                assert forall|u: int| 0 <= u < self.size() implies #[trigger] self.weight(u) == s1.weight(u) by {
                    lemma_compress_point(s1.parents@, s1.potential@, s1.height@, s1.hbound@, v as int, u);
                }
                assert(self.reps() =~= s1.reps());
                assert forall|u: int| 0 <= u < self.size() && #[trigger] s1.compressed(u) implies self.compressed(u) by {
                    assert(self.rep(u) == s1.rep(u));
                    assert(self.weight(u) == s1.weight(u));
                }
                assert(self.compressed(v as int));
                assert forall|u: int| 0 <= u < self.size() implies (self.parents@[u] == s0.parents@[u] && self.potential@[u]
                    == s0.potential@[u]) || #[trigger] self.compressed(u) by {
                    if u != v {
                        if !(s1.parents@[u] == s0.parents@[u] && s1.potential@[u] == s0.potential@[u]) {
                            assert(s1.compressed(u));
                        }
                    }
                }
                assert forall|u: int| 0 <= u < self.size() && s0.height@[u] < s0.height@[v as int] implies self.parents@[u]
                    == s0.parents@[u] && self.potential@[u] == s0.potential@[u] by {
                    assert(s0.height@[u] < s0.height@[pv as int]);
                }
            }
            rv
        }
    }

    /// Whether `a` and `b` are in the same group.
    pub fn same(&mut self, a: usize, b: usize) -> (r: bool)
        requires
            old(self).well_formed(),
            a < old(self).size(),
            b < old(self).size(),
        ensures
            final(self).well_formed(),
            r == old(self).spec_same(a as int, b as int),
            final(self).same_model(old(self)),
            final(self).compressed(a as int),
            final(self).compressed(b as int),
    {
        let ra = self.root(a);
        let rb = self.root(b);
        ra == rb
    }

    /// The weight of `v1` minus the weight of `v0`, when they are in the same group.
    pub fn get_delta(&mut self, v0: usize, v1: usize) -> (d: Option<i64>)
        requires
            old(self).well_formed(),
            v0 < old(self).size(),
            v1 < old(self).size(),
            old(self).spec_same(v0 as int, v1 as int) ==> Self::fits_i64(
                old(self).weight(v1 as int) - old(self).weight(v0 as int),
            ),
        ensures
            final(self).well_formed(),
            final(self).same_model(old(self)),
            d == if old(self).spec_same(v0 as int, v1 as int) {
                Some((old(self).weight(v1 as int) - old(self).weight(v0 as int)) as i64)
            } else {
                None
            },
    {
        if !self.same(v0, v1) {
            return None;
        }
        Some(self.potential[v1] - self.potential[v0])
    }

    /// The edge lists after recording the edge `into - from`.
    pub open spec fn adjacency_after_edge(adj: Seq<Seq<usize>>, into: int, from: int) -> Seq<Seq<usize>> {
        let a1 = adj.update(into, adj[into].push(from as usize));
        a1.update(from, a1[from].push(into as usize))
    }

    /// What a union with the given delta demands so that no weight leaves `i64`.
    pub open spec fn unite_fits(&self, into: int, from: int, delta: int) -> bool {
        self.rep(into) != self.rep(from) ==> {
            let d = self.weight(into) - self.weight(from) + delta;
            &&& Self::fits_i64(self.weight(into) - self.weight(from))
            &&& Self::fits_i64(d)
            &&& forall|x: int|
                0 <= x < self.size() && #[trigger] self.rep(x) == self.rep(from) ==> Self::fits_i64(
                    self.weight(x) + d,
                )
        }
    }

    /// Record the edge `into - from` and merge the group of `from` into that of `into`,
    /// so that the weight of `from` exceeds the weight of `into` by `delta`.
    pub fn unite_with_delta(&mut self, into: usize, from: usize, delta: i64)
        requires
            old(self).well_formed(),
            into < old(self).size(),
            from < old(self).size(),
            old(self).unite_fits(into as int, from as int, delta as int),
        ensures
            final(self).well_formed(),
            final(self).size() == old(self).size(),
            final(self).spec_group_num() == old(self).spec_group_num() - if old(self).spec_same(
                into as int,
                from as int,
            ) {
                0int
            } else {
                1int
            },
            final(self).adjacency() == Self::adjacency_after_edge(
                old(self).adjacency(),
                into as int,
                from as int,
            ),
            forall|x: int|
                0 <= x < old(self).size() ==> #[trigger] final(self).rep(x) == if old(self).rep(x)
                    == old(self).rep(from as int) {
                    old(self).rep(into as int)
                } else {
                    old(self).rep(x)
                },
            forall|x: int|
                0 <= x < old(self).size() ==> #[trigger] final(self).weight(x) == old(self).weight(x)
                    + if old(self).rep(x) == old(self).rep(from as int) && old(self).rep(into as int)
                    != old(self).rep(from as int) {
                    old(self).weight(into as int) - old(self).weight(from as int) + delta
                } else {
                    0
                },
    {
        let ghost s0 = *self;
        self.graph[into].push(from);
        self.graph[from].push(into);
        assert(self.adjacency() =~= Self::adjacency_after_edge(s0.adjacency(), into as int, from as int));
        assert forall|u: int| 0 <= u < self.size() implies #[trigger] self.rep(u) == s0.rep(u) by {}
        assert forall|u: int| 0 <= u < self.size() implies #[trigger] self.weight(u) == s0.weight(u) by {}
        assert(self.reps() =~= s0.reps());
        let ghost s1 = *self;
        let r_into = self.root(into);
        let r_from = self.root(from);
        let ghost s2 = *self;
        proof {
            if !(s2.parents@[into as int] == s1.parents@[into as int] && s2.potential@[into as int] == s1.potential@[into as int]) {
                assert(s2.compressed(into as int));
            }
            assert(s2.rep(into as int) == s1.rep(into as int));
            assert(s2.weight(into as int) == s1.weight(into as int));
            assert(s2.compressed(into as int));
        }
        if r_into != r_from {
            proof {
                s2.lemma_rep_root(into as int);
                s2.lemma_rep_root(from as int);
                lemma_count_two(s2.reps(), r_into as int, r_from as int);
                s2.lemma_rep_root(r_into as int);
                s2.lemma_rep_root(r_from as int);
                lemma_count_fixed_merge(s2.reps(), r_from as int, r_into as int);
            }
            let pot_into = self.potential[into];
            let pot_from = self.potential[from];
            let d = pot_into - pot_from + delta;
            self.parents.set(r_from, r_into);
            self.potential.set(r_from, d);
            let sz_into = self.grp_sz[r_into];
            let sz_from = self.grp_sz[r_from];
            self.grp_sz.set(r_into, sz_into + sz_from);
            self.grp_sz.set(r_from, 0);
            self.grp_num -= 1;
            proof {
                let h = s2.height@;
                let hri = if h[r_into as int] > h[r_from as int] {
                    h[r_into as int]
                } else {
                    h[r_from as int] + 1
                };
                self.height = Ghost(h.update(r_into as int, hri));
                self.hbound = Ghost(if s2.hbound@ > hri { s2.hbound@ } else { hri });
                assert forall|u: int| 0 <= u < self.size() implies #[trigger] self.rep(u) == (if s2.rep(u) == r_from { r_into as int } else { s2.rep(u) }) by {
                    lemma_union_point(s2.parents@, s2.potential@, s2.height@, s2.hbound@, r_from as int, r_into as int, d as int, u);
                }
                assert forall|u: int| 0 <= u < self.size() implies #[trigger] self.weight(u) == s2.weight(u) + (if s2.rep(u) == r_from { d as int } else { 0 }) by {
                    lemma_union_point(s2.parents@, s2.potential@, s2.height@, s2.hbound@, r_from as int, r_into as int, d as int, u);
                }
                lemma_union_point(s2.parents@, s2.potential@, s2.height@, s2.hbound@, r_from as int, r_into as int, d as int, 0);
                assert(self.reps() =~= merge_label(s2.reps(), r_from as int, r_into as int));
                lemma_count_fixed_merge(s2.reps(), r_from as int, r_into as int);
                assert forall|r: int| 0 <= r < self.size() && #[trigger] self.parents@[r] == r implies self.grp_sz@[r] == count_of(self.reps(), r) by {
                    lemma_count_merge(s2.reps(), r_from as int, r_into as int, r);
                }
            }
        }
    }

    /// Record the edge `into - from` and merge their groups.
    pub fn unite(&mut self, into: usize, from: usize)
        requires
            old(self).well_formed(),
            into < old(self).size(),
            from < old(self).size(),
            old(self).unite_fits(into as int, from as int, 0),
        ensures
            final(self).well_formed(),
            final(self).size() == old(self).size(),
            final(self).spec_group_num() == old(self).spec_group_num() - if old(self).spec_same(
                into as int,
                from as int,
            ) {
                0int
            } else {
                1int
            },
            final(self).adjacency() == Self::adjacency_after_edge(
                old(self).adjacency(),
                into as int,
                from as int,
            ),
            forall|x: int|
                0 <= x < old(self).size() ==> #[trigger] final(self).rep(x) == if old(self).rep(x)
                    == old(self).rep(from as int) {
                    old(self).rep(into as int)
                } else {
                    old(self).rep(x)
                },
            forall|x: int|
                0 <= x < old(self).size() ==> #[trigger] final(self).weight(x) == old(self).weight(x)
                    + if old(self).rep(x) == old(self).rep(from as int) && old(self).rep(into as int)
                    != old(self).rep(from as int) {
                    old(self).weight(into as int) - old(self).weight(from as int)
                } else {
                    0
                },
    {
        self.unite_with_delta(into, from, 0);
    }

    /// The number of groups.
    pub fn group_num(&self) -> (r: usize)
        requires
            self.well_formed(),
        ensures
            r == self.spec_group_num(),
    {
        self.grp_num
    }

    /// The number of nodes in the group of `a`.
    pub fn group_size(&mut self, a: usize) -> (r: usize)
        requires
            old(self).well_formed(),
            a < old(self).size(),
        ensures
            final(self).well_formed(),
            final(self).same_model(old(self)),
            r == old(self).spec_group_size(a as int),
    {
        let ra = self.root(a);
        proof {
            self.lemma_rep_root(a as int);
            assert(self.reps() =~= old(self).reps());
        }
        self.grp_sz[ra]
    }
}

/// The sequence `0, 1, ..., n - 1`.
pub open spec fn ident_seq(n: nat) -> Seq<int> {
    Seq::new(n, |v: int| v)
}

proof fn lemma_identity_counts(n: nat)
    ensures
        count_fixed(ident_seq(n)) == n,
        forall|r: int| 0 <= r < n ==> #[trigger] count_of(ident_seq(n), r) == 1,
    decreases n,
{
    if n > 0 {
        lemma_identity_counts((n - 1) as nat);
        assert(ident_seq(n).drop_last() =~= ident_seq((n - 1) as nat));
        assert forall|r: int| 0 <= r < n implies #[trigger] count_of(ident_seq(n), r)
            == 1 by {
            assert(ident_seq(n).last() == n - 1);
            if r < n - 1 {
                assert(count_of(ident_seq((n - 1) as nat), r) == 1);
            } else {
                lemma_count_absent(ident_seq((n - 1) as nat), r);
            }
        }
    }
}

proof fn lemma_count_absent(s: Seq<int>, r: int)
    requires
        forall|i: int| 0 <= i < s.len() ==> s[i] != r,
    ensures
        count_of(s, r) == 0,
    decreases s.len(),
{
    if s.len() > 0 {
        lemma_count_absent(s.drop_last(), r);
    }
}

} // verus!
