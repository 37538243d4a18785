//! A weighted tree built edge by edge; once it spans all nodes it is rooted, and answers
//! ancestor, lowest-common-ancestor and distance queries by binary lifting.
use vstd::prelude::*;
use vstd::arithmetic::power2::{pow2, lemma_pow2_pos, lemma_pow2_unfold};
use crate::union_find::UnionFind;

verus! {

/// The `k`-th ancestor of `v` along the parent links `par` (the root is its own parent).
pub open spec fn anc(par: Seq<Option<usize>>, v: int, k: nat) -> int
    decreases k,
{
    if k == 0 {
        v
    } else {
        anc(par, par[v].unwrap() as int, (k - 1) as nat)
    }
}

/// Going up `a` steps and then `b` steps is going up `a + b` steps.
pub proof fn lemma_anc_add(par: Seq<Option<usize>>, v: int, a: nat, b: nat)
    ensures
        anc(par, anc(par, v, a), b) == anc(par, v, a + b),
    decreases a,
{
    if a > 0 {
        lemma_anc_add(par, par[v].unwrap() as int, (a - 1) as nat, b);
        assert(a + b - 1 == (a - 1) + b);
    }
}

/// Every node has a parent link to a node.
pub open spec fn links_ok(par: Seq<Option<usize>>, n: int) -> bool {
    &&& par.len() == n
    &&& forall|u: int| 0 <= u < n ==> #[trigger] par[u] is Some && par[u].unwrap() < n
}

proof fn lemma_anc_bound(par: Seq<Option<usize>>, n: int, v: int, k: nat)
    requires
        links_ok(par, n),
        0 <= v < n,
    ensures
        0 <= anc(par, v, k) < n,
    decreases k,
{
    if k > 0 {
        assert(par[v] is Some);
        lemma_anc_bound(par, n, par[v].unwrap() as int, (k - 1) as nat);
    }
}

/// The number of entries that are `Some`.
pub open spec fn count_some<T>(s: Seq<Option<T>>) -> nat
    decreases s.len(),
{
    if s.len() == 0 {
        0
    } else {
        count_some(s.drop_last()) + if s.last() is Some {
            1nat
        } else {
            0nat
        }
    }
}

proof fn lemma_count_some_le<T>(s: Seq<Option<T>>)
    ensures
        count_some(s) <= s.len(),
    decreases s.len(),
{
    if s.len() > 0 {
        lemma_count_some_le(s.drop_last());
    }
}

proof fn lemma_count_some_fill<T>(s: Seq<Option<T>>, i: int, x: T)
    requires
        0 <= i < s.len(),
        s[i] is None,
    ensures
        count_some(s.update(i, Some(x))) == count_some(s) + 1,
    decreases s.len(),
{
    let t = s.update(i, Some(x));
    if i < s.len() - 1 {
        assert(t.drop_last() =~= s.drop_last().update(i, Some(x)));
        lemma_count_some_fill(s.drop_last(), i, x);
    } else {
        assert(t.drop_last() =~= s.drop_last());
    }
}

proof fn lemma_count_some_same<T>(s: Seq<Option<T>>, i: int, x: T)
    requires
        0 <= i < s.len(),
        s[i] is Some,
    ensures
        count_some(s.update(i, Some(x))) == count_some(s),
    decreases s.len(),
{
    let t = s.update(i, Some(x));
    if i < s.len() - 1 {
        assert(t.drop_last() =~= s.drop_last().update(i, Some(x)));
        lemma_count_some_same(s.drop_last(), i, x);
    } else {
        assert(t.drop_last() =~= s.drop_last());
    }
}

proof fn lemma_count_none<T>(s: Seq<Option<T>>)
    requires
        all_none(s),
    ensures
        count_some(s) == 0,
    decreases s.len(),
{
    if s.len() > 0 {
        lemma_count_none(s.drop_last());
    }
}

proof fn lemma_count_some_full<T>(s: Seq<Option<T>>)
    requires
        forall|i: int| 0 <= i < s.len() ==> #[trigger] s[i] is Some,
    ensures
        count_some(s) == s.len(),
    decreases s.len(),
{
    if s.len() > 0 {
        lemma_count_some_full(s.drop_last());
    }
}

/// The largest absolute edge weight for a tree of `n` nodes: four path lengths of up to
/// `n` such edges still fit in an `i64`.
pub open spec fn weight_bound(n: int) -> int {
    (i64::MAX as int) / (4 * n)
}

proof fn lemma_weight_bound_pos(n: int)
    requires
        1 <= n,
        8 * n <= i64::MAX,
    ensures
        weight_bound(n) >= 1,
{
    vstd::arithmetic::div_mod::lemma_fundamental_div_mod(i64::MAX as int, 4 * n);
    let q = (i64::MAX as int) / (4 * n);
    let r = (i64::MAX as int) % (4 * n);
    assert(q >= 1) by (nonlinear_arith)
        requires
            i64::MAX as int == 4 * n * q + r,
            0 <= r < 4 * n,
            8 * n <= i64::MAX,
            n >= 1,
    ;
}

/// Every edge leads to a node and has a weight within the bound.
pub open spec fn edges_ok(g: Seq<Seq<(i64, usize)>>, n: int) -> bool {
    &&& g.len() == n
    &&& forall|u: int, i: int|
        0 <= u < n && 0 <= i < g[u].len() ==> (#[trigger] g[u][i]).1 < n && -weight_bound(n) <= g[u][i].0
            <= weight_bound(n)
}

/// Every neighbour of a node in `s` is in `s`.
pub open spec fn closed_under(g: Seq<Seq<(i64, usize)>>, s: Set<int>) -> bool {
    forall|u: int, i: int|
        #![trigger s.contains(u), g[u][i]]
        s.contains(u) && 0 <= u < g.len() && 0 <= i < g[u].len() ==> s.contains(g[u][i].1 as int)
}

/// Every neighbour of `u` has been reached.
pub open spec fn neighbours_reached(g: Seq<Seq<(i64, usize)>>, dist: Seq<Option<i64>>, u: int) -> bool {
    forall|i: int| 0 <= i < g[u].len() ==> dist[(#[trigger] g[u][i]).1 as int] is Some
}

/// The reached nodes form a tree rooted at `root`: each reached node other than the root has
/// a reached parent one level up, joined to it by an edge whose weight is the difference of
/// their distances; depths and distances stay within their bounds.
pub open spec fn tree_inv(
    g: Seq<Seq<(i64, usize)>>,
    dist: Seq<Option<i64>>,
    step: Seq<Option<usize>>,
    par: Seq<Option<usize>>,
    root: int,
) -> bool {
    let n = g.len() as int;
    &&& dist.len() == n
    &&& step.len() == n
    &&& par.len() == n
    &&& 0 <= root < n
    &&& dist[root] == Some(0i64)
    &&& step[root] == Some(0usize)
    &&& par[root] == Some(root as usize)
    &&& forall|u: int|
        0 <= u < n ==> (#[trigger] dist[u] is Some <==> step[u] is Some) && (dist[u] is Some <==> par[u] is Some)
    &&& forall|u: int|
        0 <= u < n && #[trigger] dist[u] is Some ==> {
            &&& step[u].unwrap() < count_some(dist)
            &&& -(step[u].unwrap() * weight_bound(n)) <= dist[u].unwrap() <= step[u].unwrap() * weight_bound(n)
        }
    &&& forall|u: int|
        0 <= u < n && #[trigger] dist[u] is Some && u != root ==> parent_ok(g, dist, step, par, u)
}

/// The parent of `u` is reached, one level up, and joined to `u` by an edge whose weight is
/// the difference of their distances.
pub open spec fn parent_ok(
    g: Seq<Seq<(i64, usize)>>,
    dist: Seq<Option<i64>>,
    step: Seq<Option<usize>>,
    par: Seq<Option<usize>>,
    u: int,
) -> bool {
    let p = par[u].unwrap() as int;
    &&& 0 <= p < g.len()
    &&& dist[p] is Some
    &&& step[u].unwrap() == step[p].unwrap() + 1
    &&& exists|i: int|
        0 <= i < g[p].len() && #[trigger] g[p][i] == ((dist[u].unwrap() - dist[p].unwrap()) as i64, u as usize)
}

/// The reached nodes and their entries are kept.
pub open spec fn keeps_reached(
    dist0: Seq<Option<i64>>,
    step0: Seq<Option<usize>>,
    par0: Seq<Option<usize>>,
    dist1: Seq<Option<i64>>,
    step1: Seq<Option<usize>>,
    par1: Seq<Option<usize>>,
) -> bool {
    &&& dist1.len() == dist0.len()
    &&& forall|u: int|
        0 <= u < dist0.len() && #[trigger] dist0[u] is Some ==> dist1[u] == dist0[u] && step1[u] == step0[u]
            && par1[u] == par0[u]
}

/// The distance of the node reached from `v` through its edge `i`.
pub open spec fn reach_dist(g: Seq<Seq<(i64, usize)>>, d0: Seq<Option<i64>>, v: int, i: int) -> i64 {
    (d0[v].unwrap() + g[v][i].0) as i64
}

/// The depth of the node reached from `v`.
pub open spec fn reach_step(s0: Seq<Option<usize>>, v: int) -> usize {
    (s0[v].unwrap() + 1) as usize
}

/// The preconditions of reaching `g[v][i].1` from `v`.
pub open spec fn can_reach(
    g: Seq<Seq<(i64, usize)>>,
    d0: Seq<Option<i64>>,
    s0: Seq<Option<usize>>,
    r0: Seq<Option<usize>>,
    root: int,
    v: int,
    i: int,
) -> bool {
    &&& tree_inv(g, d0, s0, r0, root)
    &&& edges_ok(g, g.len() as int)
    &&& g.len() <= usize::MAX
    &&& 0 <= v < g.len()
    &&& d0[v] is Some
    &&& 0 <= i < g[v].len()
    &&& d0[g[v][i].1 as int] is None
}

#[verifier::rlimit(80)]
#[verifier::spinoff_prover]
proof fn lemma_extend_bounds(
    g: Seq<Seq<(i64, usize)>>,
    d0: Seq<Option<i64>>,
    s0: Seq<Option<usize>>,
    r0: Seq<Option<usize>>,
    root: int,
    v: int,
    i: int,
)
    requires
        can_reach(g, d0, s0, r0, root, v, i),
    ensures
        ({
            let nv = g[v][i].1 as int;
            let dn = reach_dist(g, d0, v, i);
            let sn = reach_step(s0, v);
            let d1 = d0.update(nv, Some(dn));
            let s1 = s0.update(nv, Some(sn));
            &&& count_some(d1) == count_some(d0) + 1
            &&& forall|u: int|
                0 <= u < g.len() && #[trigger] d1[u] is Some ==> {
                    &&& s1[u].unwrap() < count_some(d1)
                    &&& -(s1[u].unwrap() * weight_bound(g.len() as int)) <= d1[u].unwrap() <= s1[u].unwrap()
                        * weight_bound(g.len() as int)
                }
            &&& d0[v].unwrap() + g[v][i].0 == dn
            &&& s0[v].unwrap() + 1 == sn
            &&& i64::MIN <= d0[v].unwrap() + g[v][i].0 <= i64::MAX
            &&& s0[v].unwrap() + 1 <= g.len()
        }),
{
    let n = g.len() as int;
    let w = weight_bound(n);
    let nv = g[v][i].1 as int;
    let dn = reach_dist(g, d0, v, i);
    let sn = reach_step(s0, v);
    let d1 = d0.update(nv, Some(dn));
    let s1 = s0.update(nv, Some(sn));
    lemma_count_some_fill(d0, nv, dn);
    lemma_count_some_le(d0);
    let sv = s0[v].unwrap() as int;
    let dv = d0[v].unwrap() as int;
    let delta = g[v][i].0 as int;
    assert(sv < count_some(d0));
    assert(w * (4 * n) <= i64::MAX) by {
        vstd::arithmetic::div_mod::lemma_fundamental_div_mod(i64::MAX as int, 4 * n);
    }
    assert(-(sv * w) <= dv <= sv * w);
    assert(-w <= delta <= w);
    assert(sv * w + w == (sv + 1) * w) by (nonlinear_arith);
    assert(sv + 1 <= n);
    assert((sv + 1) * w <= n * w) by (nonlinear_arith)
        requires
            sv + 1 <= n,
            w >= 0,
    ;
    assert(n * w <= (4 * n) * w) by (nonlinear_arith)
        requires
            n >= 1,
            w >= 0,
    ;
    assert forall|u: int| 0 <= u < n && #[trigger] d1[u] is Some implies {
        &&& s1[u].unwrap() < count_some(d1)
        &&& -(s1[u].unwrap() * w) <= d1[u].unwrap() <= s1[u].unwrap() * w
    } by {
        if u != nv {
            assert(d0[u] is Some);
        }
    }
}

proof fn lemma_extend_parents(
    g: Seq<Seq<(i64, usize)>>,
    d0: Seq<Option<i64>>,
    s0: Seq<Option<usize>>,
    r0: Seq<Option<usize>>,
    root: int,
    v: int,
    i: int,
)
    requires
        can_reach(g, d0, s0, r0, root, v, i),
        d0[v].unwrap() + g[v][i].0 == reach_dist(g, d0, v, i),
        s0[v].unwrap() + 1 == reach_step(s0, v),
    ensures
        ({
            let nv = g[v][i].1 as int;
            let dn = reach_dist(g, d0, v, i);
            let sn = reach_step(s0, v);
            let d1 = d0.update(nv, Some(dn));
            let s1 = s0.update(nv, Some(sn));
            let r1 = r0.update(nv, Some(v as usize));
            forall|u: int| 0 <= u < g.len() && #[trigger] d1[u] is Some && u != root ==> parent_ok(g, d1, s1, r1, u)
        }),
{
    let n = g.len() as int;
    let nv = g[v][i].1 as int;
    let dn = reach_dist(g, d0, v, i);
    let sn = reach_step(s0, v);
    let d1 = d0.update(nv, Some(dn));
    let s1 = s0.update(nv, Some(sn));
    let r1 = r0.update(nv, Some(v as usize));
    assert forall|u: int| 0 <= u < n && #[trigger] d1[u] is Some && u != root implies parent_ok(g, d1, s1, r1, u) by {
        if u != nv {
            assert(d0[u] is Some);
            assert(r1[u] == r0[u]);
            assert(parent_ok(g, d0, s0, r0, u));
            let p = r0[u].unwrap() as int;
            assert(d0[p] is Some);
            assert(p != nv);
            assert(d1[p] == d0[p] && s1[p] == s0[p] && d1[u] == d0[u] && s1[u] == s0[u]);
            let j = choose|j: int|
                0 <= j < g[p].len() && #[trigger] g[p][j] == ((d0[u].unwrap() - d0[p].unwrap()) as i64, u as usize);
            assert(g[p][j] == ((d1[u].unwrap() - d1[p].unwrap()) as i64, u as usize));
        } else {
            assert(d1[v] == d0[v] && s1[v] == s0[v]);
            assert(r1[u] == Some(v as usize));
            assert(d1[u].unwrap() - d1[v].unwrap() == g[v][i].0);
            assert(g[v][i].1 == u as usize);
            assert(g[v][i] == ((d1[u].unwrap() - d1[v].unwrap()) as i64, u as usize));
        }
    }
}

/// Reaching the unreached neighbour `g[v][i].1` of the reached node `v` keeps the tree
/// invariant.
proof fn lemma_extend_tree(
    g: Seq<Seq<(i64, usize)>>,
    d0: Seq<Option<i64>>,
    s0: Seq<Option<usize>>,
    r0: Seq<Option<usize>>,
    root: int,
    v: int,
    i: int,
)
    requires
        can_reach(g, d0, s0, r0, root, v, i),
    ensures
        ({
            let nv = g[v][i].1 as int;
            let dn = reach_dist(g, d0, v, i);
            let sn = reach_step(s0, v);
            let d1 = d0.update(nv, Some(dn));
            let s1 = s0.update(nv, Some(sn));
            let r1 = r0.update(nv, Some(v as usize));
            &&& tree_inv(g, d1, s1, r1, root)
            &&& count_some(d1) == count_some(d0) + 1
            &&& keeps_reached(d0, s0, r0, d1, s1, r1)
            &&& d0[v].unwrap() + g[v][i].0 == dn
            &&& s0[v].unwrap() + 1 == sn
        }),
{
    let n = g.len() as int;
    let nv = g[v][i].1 as int;
    let dn = reach_dist(g, d0, v, i);
    let sn = reach_step(s0, v);
    let d1 = d0.update(nv, Some(dn));
    let s1 = s0.update(nv, Some(sn));
    let r1 = r0.update(nv, Some(v as usize));
    lemma_extend_bounds(g, d0, s0, r0, root, v, i);
    lemma_extend_parents(g, d0, s0, r0, root, v, i);
    assert forall|u: int| 0 <= u < n implies (#[trigger] d1[u] is Some <==> s1[u] is Some) && (d1[u] is Some
        <==> r1[u] is Some) by {
        if u != nv {
            assert(d0[u] is Some <==> s0[u] is Some);
        }
    }
}

/// The adjacency lists as sequences.
pub open spec fn adj(graph: Seq<Vec<(i64, usize)>>) -> Seq<Seq<(i64, usize)>> {
    graph.map_values(|e: Vec<(i64, usize)>| e@)
}

/// Every node is reached, nothing is recorded, or nothing but the root.
pub open spec fn all_none<T>(s: Seq<Option<T>>) -> bool {
    forall|u: int| 0 <= u < s.len() ==> #[trigger] s[u] is None
}

/// The groups of `uf` never split a set of nodes that is closed under the edges of `g`.
pub open spec fn uf_respects(uf: UnionFind, g: Seq<Seq<(i64, usize)>>) -> bool {
    forall|s: Set<int>|
        #[trigger] closed_under(g, s) ==> forall|x: int, y: int|
            0 <= x < g.len() && 0 <= y < g.len() && #[trigger] uf.spec_same(x, y) && s.contains(x) ==> s.contains(y)
}

/// `g2` holds every edge of `g1`, at the same place.
pub open spec fn extends(g1: Seq<Seq<(i64, usize)>>, g2: Seq<Seq<(i64, usize)>>) -> bool {
    &&& g1.len() == g2.len()
    &&& forall|u: int| 0 <= u < g1.len() ==> #[trigger] g2[u].len() >= g1[u].len()
    &&& forall|u: int, i: int| 0 <= u < g1.len() && 0 <= i < g1[u].len() ==> #[trigger] g2[u][i] == g1[u][i]
}

proof fn lemma_tree_inv_extends(
    g1: Seq<Seq<(i64, usize)>>,
    g2: Seq<Seq<(i64, usize)>>,
    dist: Seq<Option<i64>>,
    step: Seq<Option<usize>>,
    par: Seq<Option<usize>>,
    root: int,
)
    requires
        tree_inv(g1, dist, step, par, root),
        extends(g1, g2),
    ensures
        tree_inv(g2, dist, step, par, root),
{
    let n = g1.len() as int;
    assert forall|u: int| 0 <= u < n && #[trigger] dist[u] is Some && u != root implies parent_ok(g2, dist, step, par, u) by {
        assert(parent_ok(g1, dist, step, par, u));
        let p = par[u].unwrap() as int;
        let j = choose|j: int|
            0 <= j < g1[p].len() && #[trigger] g1[p][j] == ((dist[u].unwrap() - dist[p].unwrap()) as i64, u as usize);
        assert(g2[p][j] == g1[p][j]);
    }
}

/// In a first analysis, the search from `root` reaches every node: the reached nodes are
/// closed under the edges, and all nodes are in one group.
proof fn lemma_first_search(
    g: Seq<Seq<(i64, usize)>>,
    uf: UnionFind,
    root: int,
    d_before: Seq<Option<i64>>,
    d2: Seq<Option<i64>>,
)
    requires
        edges_ok(g, g.len() as int),
        0 <= root < g.len(),
        uf_respects(uf, g),
        forall|a: int, b: int| 0 <= a < g.len() && 0 <= b < g.len() ==> #[trigger] uf.spec_same(a, b),
        d2.len() == g.len(),
        d2[root] is Some,
        forall|u: int| 0 <= u < g.len() && #[trigger] d_before[u] is Some ==> u == root,
        forall|u: int|
            0 <= u < g.len() && #[trigger] d2[u] is Some && (d_before[u] is None || u == root) ==> neighbours_reached(g, d2, u),
    ensures
        forall|u: int| 0 <= u < g.len() ==> #[trigger] d2[u] is Some,
{
    let n = g.len() as int;
    let reached = Set::new(|u: int| 0 <= u < n && d2[u] is Some);
    assert forall|u: int, i: int|
        #![trigger reached.contains(u), g[u][i]]
        reached.contains(u) && 0 <= u < g.len() && 0 <= i < g[u].len() implies reached.contains(g[u][i].1 as int) by {
        if d_before[u] is Some {
            assert(u == root);
        }
        assert(neighbours_reached(g, d2, u));
        assert(g[u][i].1 < n);
    }
    assert(closed_under(g, reached));
    assert forall|u: int| 0 <= u < n implies #[trigger] d2[u] is Some by {
        assert(uf.spec_same(root, u));
        assert(reached.contains(root));
    }
}

/// Once every node is reached, every node has a parent link.
proof fn lemma_links(
    g: Seq<Seq<(i64, usize)>>,
    d2: Seq<Option<i64>>,
    s2: Seq<Option<usize>>,
    r2: Seq<Option<usize>>,
    root: int,
)
    requires
        tree_inv(g, d2, s2, r2, root),
        forall|u: int| 0 <= u < g.len() ==> #[trigger] d2[u] is Some,
    ensures
        links_ok(r2, g.len() as int),
{
    let n = g.len() as int;
    assert forall|u: int| 0 <= u < n implies #[trigger] r2[u] is Some && r2[u].unwrap() < n by {
        assert(d2[u] is Some);
        if u != root {
            assert(parent_ok(g, d2, s2, r2, u));
        }
    }
}

/// Adding the edge `a - b` to the graph and merging the groups of `a` and `b` keeps the
/// groups within the sets closed under the edges.
proof fn lemma_respects_after_edge(
    uf0: UnionFind,
    uf1: UnionFind,
    g0: Seq<Seq<(i64, usize)>>,
    g1: Seq<Seq<(i64, usize)>>,
    a: int,
    b: int,
    delta: i64,
)
    requires
        0 <= a < g0.len(),
        0 <= b < g0.len(),
        g0.len() <= usize::MAX,
        uf0.size() == g0.len(),
        uf_respects(uf0, g0),
        ({
            let e1 = g0.update(a, g0[a].push((delta, b as usize)));
            g1 == e1.update(b, e1[b].push((delta, a as usize)))
        }),
        forall|x: int|
            0 <= x < uf0.size() ==> #[trigger] uf1.rep(x) == if uf0.rep(x) == uf0.rep(b) {
                uf0.rep(a)
            } else {
                uf0.rep(x)
            },
    ensures
        uf_respects(uf1, g1),
{
    let n = g0.len() as int;
    assert forall|u: int, i: int| 0 <= u < n && 0 <= i < g0[u].len() implies #[trigger] g1[u][i] == g0[u][i] by {
    }
    assert(g1[a][g0[a].len() as int] == (delta, b as usize));
    assert(g1[b][g0[b].len() as int] == (delta, a as usize));
    assert forall|s0: Set<int>| #[trigger] closed_under(g1, s0) implies forall|x: int, y: int|
        0 <= x < n && 0 <= y < n && #[trigger] uf1.spec_same(x, y) && s0.contains(x) ==> s0.contains(y) by {
        assert forall|u: int, i: int|
            #![trigger s0.contains(u), g0[u][i]]
            s0.contains(u) && 0 <= u < g0.len() && 0 <= i < g0[u].len() implies s0.contains(g0[u][i].1 as int) by {
            assert(g1[u][i] == g0[u][i]);
        }
        assert(closed_under(g0, s0));
        let ia = g0[a].len() as int;
        let ib = g0[b].len() as int;
        assert(g1[a][ia] == (delta, b as usize));
        assert(g1[b][ib] == (delta, a as usize));
        assert(s0.contains(a) ==> s0.contains(b));
        assert(s0.contains(b) ==> s0.contains(a));
        assert forall|x: int, y: int|
            0 <= x < n && 0 <= y < n && #[trigger] uf1.spec_same(x, y) && s0.contains(x) implies s0.contains(y) by {
            let ra = uf0.rep(a);
            let rb = uf0.rep(b);
            let ai = a;
            let bi = b;
            // a and b are both in s0 or both out of it
            if uf0.rep(x) == rb {
                assert(uf0.spec_same(x, bi));
                assert(s0.contains(bi));
                assert(s0.contains(ai));
            } else if uf0.rep(x) == ra {
                assert(uf0.spec_same(x, ai));
                assert(s0.contains(ai));
                assert(s0.contains(bi));
            }
            if uf0.rep(y) == rb {
                if uf0.rep(x) == rb || uf0.rep(x) == ra {
                    assert(uf0.spec_same(bi, y));
                }
            } else if uf0.rep(y) == ra {
                if uf0.rep(x) == rb || uf0.rep(x) == ra {
                    assert(uf0.spec_same(ai, y));
                }
            }
            if uf0.rep(x) != rb && uf0.rep(x) != ra {
                assert(uf0.spec_same(x, y));
            }
        }
    }
}

/// Going up `k` levels from `v` lands `k` levels higher, or at the root once `k` reaches
/// the depth of `v`.
proof fn lemma_anc_depth(
    g: Seq<Seq<(i64, usize)>>,
    dist: Seq<Option<i64>>,
    step: Seq<Option<usize>>,
    par: Seq<Option<usize>>,
    root: int,
    v: int,
    k: nat,
)
    requires
        tree_inv(g, dist, step, par, root),
        forall|u: int| 0 <= u < g.len() ==> #[trigger] dist[u] is Some,
        0 <= v < g.len(),
        g.len() <= usize::MAX,
    ensures
        0 <= anc(par, v, k) < g.len(),
        k <= step[v].unwrap() ==> step[anc(par, v, k)].unwrap() == step[v].unwrap() - k,
        k >= step[v].unwrap() ==> anc(par, v, k) == root,
        step[v].unwrap() == 0 ==> v == root,
    decreases k,
{
    assert(dist[v] is Some);
    if v != root {
        assert(parent_ok(g, dist, step, par, v));
    }
    if k > 0 {
        let p = par[v].unwrap() as int;
        lemma_anc_depth(g, dist, step, par, root, p, (k - 1) as nat);
    }
}

/// The number of levels of a table for at most `usize::MAX / 4` nodes is below the width
/// of `usize`.
proof fn lemma_levels_fit(bw: nat, n: int)
    requires
        bw >= 1,
        bw == 1 || pow2((bw - 1) as nat) < n,
        n <= usize::MAX / 4,
    ensures
        bw < usize::BITS,
{
    vstd::layout::unsigned_int_max_values();
    assert(usize::BITS >= 32) by {
        assert(usize::MAX >= 0xffff_ffff);
        vstd::arithmetic::power2::lemma2_to64();
        if usize::BITS < 32 {
            vstd::arithmetic::power2::lemma_pow2_strictly_increases(usize::BITS as nat, 32);
        }
    }
    if bw > 1 && bw - 1 >= usize::BITS - 2 {
        let b2 = (usize::BITS - 2) as nat;
        vstd::arithmetic::power2::lemma_pow2_adds(b2, 2);
        vstd::arithmetic::power2::lemma2_to64();
        if bw - 1 > b2 {
            vstd::arithmetic::power2::lemma_pow2_strictly_increases(b2, (bw - 1) as nat);
        }
        assert(pow2(b2) * 4 == pow2(usize::BITS as nat));
    }
}

/// Two nodes that meet going up `k` levels still meet going up further.
proof fn lemma_meet_stays(par: Seq<Option<usize>>, a: int, b: int, k: nat, j: nat)
    requires
        anc(par, a, k) == anc(par, b, k),
        k <= j,
    ensures
        anc(par, a, j) == anc(par, b, j),
{
    lemma_anc_add(par, a, k, (j - k) as nat);
    lemma_anc_add(par, b, k, (j - k) as nat);
}

/// A tree on `n` nodes, given edge by edge.  Once `n - 1` edges have been added, it is
/// rooted at `root`: each node gets its depth, its distance from the root and a table of
/// its `2^d`-th ancestors.
pub struct RootedTree {
    n: usize,
    doubling_bit_width: usize,
    root: usize,
    rise_tbl: Vec<Vec<Option<usize>>>,
    dist: Vec<Option<i64>>,
    step: Vec<Option<usize>>,
    pub graph: Vec<Vec<(i64, usize)>>,
    edge_cnt: usize,
    uf: UnionFind,
}

impl RootedTree {
    /// The number of nodes.
    pub closed spec fn size(&self) -> nat {
        self.n as nat
    }

    /// The node the tree is rooted at.
    pub closed spec fn root_node(&self) -> int {
        self.root as int
    }

    /// The number of edges added so far.
    pub closed spec fn edge_count(&self) -> nat {
        self.edge_cnt as nat
    }

    /// The number of levels of the ancestor table.
    pub closed spec fn levels(&self) -> nat {
        self.doubling_bit_width as nat
    }

    /// The edges added so far, as adjacency lists of `(weight, neighbour)`.
    pub closed spec fn edges(&self) -> Seq<Seq<(i64, usize)>> {
        adj(self.graph@)
    }

    /// The parent links.
    pub closed spec fn parents(&self) -> Seq<Option<usize>> {
        self.rise_tbl@[0]@
    }

    /// The `k`-th ancestor of `v`.
    pub open spec fn ancestor(&self, v: int, k: nat) -> int {
        anc(self.parents(), v, k)
    }

    /// The depth of `v`: the number of edges from the root.
    pub closed spec fn depth(&self, v: int) -> int {
        self.step@[v].unwrap() as int
    }

    /// The distance of `v` from the root: the sum of the weights on its path.
    pub closed spec fn dist_from_root(&self, v: int) -> int {
        self.dist@[v].unwrap() as int
    }

    /// The number of groups of nodes joined by edges.
    pub closed spec fn groups(&self) -> int {
        self.uf.spec_group_num() as int
    }

    /// The number of groups there will be once the edge `a - b` is added.
    pub closed spec fn groups_after_edge(&self, a: int, b: int) -> int {
        self.uf.spec_group_num() - if self.uf.spec_same(a, b) {
            0int
        } else {
            1int
        }
    }

    /// Every node has been reached from the root; depths, distances and the ancestor table
    /// describe the tree.
    pub closed spec fn analyzed(&self) -> bool {
        &&& tree_inv(adj(self.graph@), self.dist@, self.step@, self.rise_tbl@[0]@, self.root as int)
        &&& forall|u: int| 0 <= u < self.n ==> #[trigger] self.dist@[u] is Some
        &&& forall|d: int, v: int|
            0 <= d < self.doubling_bit_width && 0 <= v < self.n ==> #[trigger] self.rise_tbl@[d]@[v] == Some(
                anc(self.rise_tbl@[0]@, v, pow2(d as nat)) as usize,
            )
    }

    /// Still analysed, with the same parents, depths and distances as `prev`.
    pub open spec fn keeps_analysis(&self, prev: &Self) -> bool {
        &&& self.analyzed()
        &&& self.parents() == prev.parents()
        &&& forall|v: int|
            0 <= v < prev.size() ==> #[trigger] self.depth(v) == prev.depth(v) && self.dist_from_root(v)
                == prev.dist_from_root(v)
    }

    spec fn sizes_ok(&self) -> bool {
        let n = self.n as int;
        &&& self.graph.len() == n
        &&& self.dist.len() == n
        &&& self.step.len() == n
        &&& self.doubling_bit_width >= 1
        &&& self.rise_tbl.len() == self.doubling_bit_width
        &&& forall|d: int| 0 <= d < self.doubling_bit_width ==> #[trigger] self.rise_tbl@[d].len() == n
        &&& pow2(self.doubling_bit_width as nat) >= n
        &&& self.doubling_bit_width == 1 || pow2((self.doubling_bit_width - 1) as nat) < n
        &&& n <= usize::MAX / 4
        &&& 8 * n <= i64::MAX
    }

    /// The internal invariant.
    pub closed spec fn well_formed(&self) -> bool {
        &&& self.sizes_ok()
        &&& edges_ok(adj(self.graph@), self.n as int)
        &&& self.uf.well_formed()
        &&& self.uf.size() == self.n
        &&& forall|x: int| 0 <= x < self.n ==> #[trigger] self.uf.weight(x) == 0
        &&& uf_respects(self.uf, adj(self.graph@))
        &&& self.analyzed() || (all_none(self.dist@) && all_none(self.step@) && all_none(self.rise_tbl@[0]@))
    }

    /// A tree of `n` nodes without edges, to be rooted at `root`.
    pub fn new(n: usize, root: usize) -> (t: RootedTree)
        requires
            n <= usize::MAX / 4,
            8 * n <= i64::MAX,
        ensures
            t.well_formed(),
            t.size() == n,
            t.root_node() == root,
            t.edge_count() == 0,
            t.edges() == Seq::new(n as nat, |i: int| Seq::<(i64, usize)>::empty()),
            t.levels() >= 1,
            pow2(t.levels()) >= n,
            t.levels() == 1 || pow2((t.levels() - 1) as nat) < n,
    {
        let mut doubling_bit_width: usize = 1;
        let mut p: usize = 2;
        proof {
            lemma_pow2_unfold(1);
            vstd::arithmetic::power2::lemma2_to64();
        }
        while p < n
            invariant
                p == pow2(doubling_bit_width as nat),
                doubling_bit_width >= 1,
                doubling_bit_width == 1 || pow2((doubling_bit_width - 1) as nat) < n,
                n <= usize::MAX / 4,
                p <= 2 * n + 2,
                doubling_bit_width < p,
            decreases 2 * n + 2 - p,
        {
            proof {
                lemma_pow2_unfold((doubling_bit_width + 1) as nat);
            }
            assert(p < n);
            doubling_bit_width += 1;
            p = p * 2;
            assert(p <= 2 * n + 2);
        }
        let mut rise_tbl: Vec<Vec<Option<usize>>> = Vec::new();
        let mut d: usize = 0;
        while d < doubling_bit_width
            invariant
                d <= doubling_bit_width,
                rise_tbl.len() == d,
                forall|e: int| 0 <= e < d ==> #[trigger] rise_tbl@[e]@ == Seq::new(n as nat, |i: int| None::<usize>),
            decreases doubling_bit_width - d,
        {
            let mut row: Vec<Option<usize>> = Vec::new();
            let mut i: usize = 0;
            while i < n
                invariant
                    i <= n,
                    row@ == Seq::new(i as nat, |j: int| None::<usize>),
                decreases n - i,
            {
                row.push(None);
                i += 1;
            }
            rise_tbl.push(row);
            d += 1;
        }
        let mut dist: Vec<Option<i64>> = Vec::new();
        let mut step: Vec<Option<usize>> = Vec::new();
        let mut graph: Vec<Vec<(i64, usize)>> = Vec::new();
        let mut i: usize = 0;
        while i < n
            invariant
                i <= n,
                dist@ == Seq::new(i as nat, |j: int| None::<i64>),
                step@ == Seq::new(i as nat, |j: int| None::<usize>),
                graph.len() == i,
                adj(graph@) == Seq::new(i as nat, |j: int| Seq::<(i64, usize)>::empty()),
            decreases n - i,
        {
            dist.push(None);
            step.push(None);
            let e: Vec<(i64, usize)> = Vec::new();
            assert(e@ == Seq::<(i64, usize)>::empty());
            let ghost g0 = graph@;
            graph.push(e);
            assert forall|j: int| 0 <= j < i + 1 implies #[trigger] adj(graph@)[j] == Seq::<(i64, usize)>::empty() by {
                if j < i {
                    assert(graph@[j] == g0[j]);
                    assert(adj(g0)[j] == g0[j]@);
                }
            }
            assert(adj(graph@) =~= Seq::new((i + 1) as nat, |j: int| Seq::<(i64, usize)>::empty()));
            i += 1;
        }
        let uf = UnionFind::new(n);
        let t = RootedTree { n, doubling_bit_width, root, rise_tbl, dist, step, graph, edge_cnt: 0, uf };
        proof {
            assert forall|s0: Set<int>| #[trigger] closed_under(adj(t.graph@), s0) implies forall|x: int, y: int|
                0 <= x < n && 0 <= y < n && #[trigger] t.uf.spec_same(x, y) && s0.contains(x) ==> s0.contains(y) by {
                assert forall|x: int, y: int|
                    0 <= x < n && 0 <= y < n && #[trigger] t.uf.spec_same(x, y) && s0.contains(x) implies s0.contains(y) by {
                    assert(t.uf.rep(x) == x && t.uf.rep(y) == y);
                }
            }
            assert(t.rise_tbl@[0]@ == Seq::new(n as nat, |i: int| None::<usize>));
            assert forall|x: int| 0 <= x < n implies #[trigger] t.uf.weight(x) == 0 by {
                assert(t.uf.rep(x) == x);
            }
            assert forall|d: int| 0 <= d < t.doubling_bit_width implies #[trigger] t.rise_tbl@[d].len() == n by {
                assert(t.rise_tbl@[d]@ == Seq::new(n as nat, |i: int| None::<usize>));
            }
        }
        t
    }

    /// `c` is the lowest common ancestor of `a` and `b`: lift the deeper of the two to the
    /// depth of the other, then `c` is where they first meet going up together.
    pub open spec fn is_lca(&self, a: int, b: int, c: int) -> bool {
        if self.depth(a) <= self.depth(b) {
            self.meets_at(a, self.ancestor(b, (self.depth(b) - self.depth(a)) as nat), c)
        } else {
            self.meets_at(b, self.ancestor(a, (self.depth(a) - self.depth(b)) as nat), c)
        }
    }

    /// Going up together from `x` and `y`, the first node where they meet is `c`.
    pub open spec fn meets_at(&self, x: int, y: int, c: int) -> bool {
        exists|k: nat| #[trigger] self.first_meet(x, y, k, c)
    }

    /// Going up `k` levels from `x` and from `y` both reach `c`, and fewer levels reach
    /// different nodes.
    pub open spec fn first_meet(&self, x: int, y: int, k: nat, c: int) -> bool {
        &&& c == self.ancestor(x, k)
        &&& c == self.ancestor(y, k)
        &&& forall|j: nat| j < k ==> #[trigger] self.ancestor(x, j) != self.ancestor(y, j)
    }

    /// The lowest common ancestor of `a` and `b`.
    pub open spec fn lca_of(&self, a: int, b: int) -> int {
        choose|c: int| self.is_lca(a, b, c)
    }

    /// After the analysis the root has depth and distance 0 and is its own parent; every
    /// other node is one level below its parent, joined to it by an edge whose weight is the
    /// difference of their distances from the root.
    pub proof fn lemma_analysis(&self, v: int)
        requires
            self.well_formed(),
            self.analyzed(),
            0 <= v < self.size(),
        ensures
            self.depth(self.root_node()) == 0,
            self.dist_from_root(self.root_node()) == 0,
            self.ancestor(self.root_node(), 1) == self.root_node(),
            0 <= self.ancestor(v, 1) < self.size(),
            v != self.root_node() ==> self.depth(v) == self.depth(self.ancestor(v, 1)) + 1 && exists|i: int|
                0 <= i < self.edges()[self.ancestor(v, 1)].len() && #[trigger] self.edges()[self.ancestor(v, 1)][i]
                    == ((self.dist_from_root(v) - self.dist_from_root(self.ancestor(v, 1))) as i64, v as usize),
    {
        let par = self.rise_tbl@[0]@;
        let r = self.root as int;
        assert(anc(par, r, 1) == anc(par, par[r].unwrap() as int, 0));
        assert(anc(par, v, 1) == anc(par, par[v].unwrap() as int, 0));
        assert(self.dist@[v] is Some);
        if v != r {
            let g = adj(self.graph@);
            assert(parent_ok(g, self.dist@, self.step@, par, v));
            let p = par[v].unwrap() as int;
            assert(self.ancestor(v, 1) == p);
            let i = choose|i: int|
                0 <= i < g[p].len() && #[trigger] g[p][i] == ((self.dist@[v].unwrap() - self.dist@[p].unwrap()) as i64, v as usize);
            assert(self.edges()[p][i] == ((self.dist_from_root(v) - self.dist_from_root(p)) as i64, v as usize));
        }
    }

    /// Going up `k` levels from `v` lands `k` levels higher, or on the root once `k` reaches
    /// the depth of `v`; only the root has depth 0.
    pub proof fn lemma_ancestor_depth(&self, v: int, k: nat)
        requires
            self.well_formed(),
            self.analyzed(),
            0 <= v < self.size(),
        ensures
            0 <= self.ancestor(v, k) < self.size(),
            self.depth(v) >= 0,
            self.depth(self.ancestor(v, k)) == if k <= self.depth(v) { self.depth(v) - k } else { 0 },
            k >= self.depth(v) ==> self.ancestor(v, k) == self.root_node(),
        decreases k,
    {
        self.lemma_analysis(v);
        let r = self.root_node();
        self.lemma_analysis(r);
        if k > 0 {
            let p = self.ancestor(v, 1);
            lemma_anc_add(self.parents(), v, 1, (k - 1) as nat);
            assert(self.ancestor(v, k) == self.ancestor(p, (k - 1) as nat));
            if v == r {
                assert(p == r);
                self.lemma_ancestor_depth(r, (k - 1) as nat);
            } else {
                self.lemma_ancestor_depth(p, (k - 1) as nat);
            }
        } else {
            if self.depth(v) == 0 && v != r {
                self.lemma_ancestor_depth(self.ancestor(v, 1), 0);
            }
        }
    }

    /// The lowest common ancestor is a common ancestor, and no common ancestor is deeper.
    pub proof fn lemma_lca_deepest(&self, a: int, b: int, c: int, d: int, i: nat, j: nat)
        requires
            self.well_formed(),
            self.analyzed(),
            0 <= a < self.size(),
            0 <= b < self.size(),
            self.is_lca(a, b, c),
            d == self.ancestor(a, i),
            d == self.ancestor(b, j),
        ensures
            self.depth(c) <= self.depth(a),
            self.depth(c) <= self.depth(b),
            c == self.ancestor(a, (self.depth(a) - self.depth(c)) as nat),
            c == self.ancestor(b, (self.depth(b) - self.depth(c)) as nat),
            self.depth(d) <= self.depth(c),
    {
        if self.depth(a) <= self.depth(b) {
            self.lemma_deepest_ordered(a, b, c, d, i, j);
        } else {
            self.lemma_deepest_ordered(b, a, c, d, j, i);
        }
    }

    proof fn lemma_deepest_ordered(&self, a: int, b: int, c: int, d: int, i: nat, j: nat)
        requires
            self.well_formed(),
            self.analyzed(),
            0 <= a < self.size(),
            0 <= b < self.size(),
            self.depth(a) <= self.depth(b),
            self.meets_at(a, self.ancestor(b, (self.depth(b) - self.depth(a)) as nat), c),
            d == self.ancestor(a, i),
            d == self.ancestor(b, j),
        ensures
            self.depth(c) <= self.depth(a),
            c == self.ancestor(a, (self.depth(a) - self.depth(c)) as nat),
            c == self.ancestor(b, (self.depth(b) - self.depth(c)) as nat),
            self.depth(d) <= self.depth(c),
    {
        let par = self.parents();
        let delta = (self.depth(b) - self.depth(a)) as nat;
        let hi = self.ancestor(b, delta);
        let k = choose|k: nat| #[trigger] self.first_meet(a, hi, k, c);
        self.lemma_ancestor_depth(b, delta);
        self.lemma_ancestor_depth(a, k);
        self.lemma_ancestor_depth(hi, k);
        let da = self.depth(a) as nat;
        if k > da {
            self.lemma_ancestor_depth(a, da);
            self.lemma_ancestor_depth(hi, da);
            assert(self.ancestor(a, da) != self.ancestor(hi, da));
        }
        assert(self.depth(c) == self.depth(a) - k);
        lemma_anc_add(par, b, delta, k);
        assert(delta + k == self.depth(b) - self.depth(c));
        self.lemma_ancestor_depth(a, i);
        self.lemma_ancestor_depth(b, j);
        if self.depth(d) > 0 {
            assert(i < self.depth(a) && j < self.depth(b));
            let jj = (delta + i) as nat;
            assert(j == jj);
            lemma_anc_add(par, b, delta, i);
            assert(self.ancestor(hi, i) == d);
            if i < k {
                assert(self.ancestor(a, i) != self.ancestor(hi, i));
            }
        }
    }

    /// The lowest common ancestor does not depend on the order of the two nodes.
    pub proof fn lemma_lca_symmetric(&self, a: int, b: int, c: int)
        requires
            self.is_lca(a, b, c),
        ensures
            self.is_lca(b, a, c),
            self.lca_of(b, a) == c,
    {
        if self.depth(a) == self.depth(b) {
            let k = choose|k: nat| #[trigger] self.first_meet(a, self.ancestor(b, 0), k, c);
            assert(self.ancestor(b, 0) == b && self.ancestor(a, 0) == a);
            assert(self.first_meet(b, self.ancestor(a, 0), k, c));
        }
        assert(self.is_lca(b, a, c));
        assert(self.is_lca(b, a, self.lca_of(b, a)));
        self.lemma_lca_unique(b, a, c, self.lca_of(b, a));
    }

    /// There is only one lowest common ancestor.
    pub proof fn lemma_lca_unique(&self, a: int, b: int, c1: int, c2: int)
        requires
            self.is_lca(a, b, c1),
            self.is_lca(a, b, c2),
        ensures
            c1 == c2,
    {
        let lo = if self.depth(a) <= self.depth(b) { a } else { b };
        let hi = if self.depth(a) <= self.depth(b) { b } else { a };
        let hi2 = self.ancestor(hi, (self.depth(hi) - self.depth(lo)) as nat);
        assert(self.meets_at(lo, hi2, c1) && self.meets_at(lo, hi2, c2));
        let k1 = choose|k: nat| #[trigger] self.first_meet(lo, hi2, k, c1);
        let k2 = choose|k: nat| #[trigger] self.first_meet(lo, hi2, k, c2);
        if k1 < k2 {
            assert(self.ancestor(lo, k1) != self.ancestor(hi2, k1));
        } else if k2 < k1 {
            assert(self.ancestor(lo, k2) != self.ancestor(hi2, k2));
        }
    }

    /// Go up from `from` by `step` levels, using the levels of the ancestor table below the
    /// top one: `step` counts modulo `2^(levels - 1)`.
    pub fn stepback(&self, from: usize, step: usize) -> (r: usize)
        requires
            self.well_formed(),
            self.analyzed(),
            from < self.size(),
        ensures
            r == self.ancestor(from as int, (step as nat) % pow2((self.levels() - 1) as nat)),
    {
        let ghost par = self.rise_tbl@[0]@;
        let ghost n = self.n as int;
        let ghost top = pow2((self.doubling_bit_width - 1) as nat);
        let mut v = from;
        let mut d = self.doubling_bit_width - 1;
        proof {
            lemma_pow2_pos((self.doubling_bit_width - 1) as nat);
            lemma_links(adj(self.graph@), self.dist@, self.step@, par, self.root as int);
            lemma_levels_fit(self.doubling_bit_width as nat, n);
        }
        while d > 0
            invariant
                self.well_formed(),
                self.analyzed(),
                par == self.rise_tbl@[0]@,
                n == self.n,
                top == pow2((self.doubling_bit_width - 1) as nat),
                links_ok(par, n),
                d <= self.doubling_bit_width - 1,
                self.doubling_bit_width < usize::BITS,
                0 <= v < n,
                from < n,
                (step as nat) % top >= (step as nat) % pow2(d as nat),
                v == anc(par, from as int, ((step as nat) % top - (step as nat) % pow2(d as nat)) as nat),
            decreases d,
        {
            d -= 1;
            let ghost p = pow2(d as nat);
            let ghost x = (step as nat) % top;
            let ghost m_old = (step as nat) % pow2((d + 1) as nat);
            let ghost m_new = (step as nat) % p;
            let ghost bit = ((step as nat) / p) % 2;
            proof {
                lemma_pow2_pos(d as nat);
                lemma_pow2_unfold((d + 1) as nat);
                assert(pow2((d + 1) as nat) == p * 2);
                vstd::arithmetic::div_mod::lemma_mod_breakdown(step as int, p as int, 2);
                assert(m_old == p * bit + m_new);
                vstd::bits::lemma_usize_shr_is_div(step, d);
                let q = step >> d;
                assert(q & 1 == q % 2) by (bit_vector);
                assert(q == (step as nat) / p);
                assert(bit == 0 || bit == 1);
                assert(m_new <= m_old);
            }
            if ((step >> d) & 1) != 0 {
                proof {
                    assert(bit == 1);
                    assert(self.rise_tbl@[d as int].len() == n);
                    assert(self.rise_tbl@[d as int]@[v as int] == Some(anc(par, v as int, p) as usize));
                    lemma_anc_add(par, from as int, (x - m_old) as nat, p);
                    assert((x - m_old) + p == x - m_new);
                    lemma_anc_bound(par, n, from as int, (x - m_new) as nat);
                }
                v = self.rise_tbl[d][v].unwrap();
            } else {
                proof {
                    assert(bit == 0);
                    assert(m_old == m_new);
                }
            }
        }
        proof {
            vstd::arithmetic::power2::lemma2_to64();
        }
        v
    }

    proof fn lemma_is_lca_from(&self, a_in: int, b_in: int, a0: int, b0: int, b1: int, c: int)
        requires
            self.depth(a_in) <= self.depth(b_in) ==> a0 == a_in && b0 == b_in,
            self.depth(a_in) > self.depth(b_in) ==> a0 == b_in && b0 == a_in,
            b1 == self.ancestor(b0, (self.depth(b0) - self.depth(a0)) as nat),
            exists|k: nat| #[trigger] self.first_meet(a0, b1, k, c),
        ensures
            self.is_lca(a_in, b_in, c),
    {
        assert(self.meets_at(a0, b1, c));
    }

    /// The lowest common ancestor of `a` and `b`.
    #[verifier::spinoff_prover]
    #[verifier::rlimit(40)]
    pub fn lca(&self, a: usize, b: usize) -> (r: usize)
        requires
            self.well_formed(),
            self.analyzed(),
            a < self.size(),
            b < self.size(),
        ensures
            self.is_lca(a as int, b as int, r as int),
            r == self.lca_of(a as int, b as int),
            r < self.size(),
    {
        let ghost par = self.rise_tbl@[0]@;
        let ghost n = self.n as int;
        let ghost g = adj(self.graph@);
        let ghost root = self.root as int;
        let ghost a_in = a as int;
        let ghost b_in = b as int;
        let mut a = a;
        let mut b = b;
        proof {
            lemma_links(g, self.dist@, self.step@, par, root);
            assert(self.dist@[a as int] is Some && self.dist@[b as int] is Some);
        }
        if self.step[a].unwrap() > self.step[b].unwrap() {
            let t = a;
            a = b;
            b = t;
        }
        let ghost a0 = a as int;
        let ghost b0 = b as int;
        let ghost da = self.depth(a0);
        let ghost db = self.depth(b0);
        let sa = self.step[a].unwrap();
        let bw = self.doubling_bit_width;
        proof {
            lemma_count_some_le(self.dist@);
            assert(self.dist@[b0] is Some);
            assert(db < n);
        }
        // bring the deeper node up to the depth of the other
        let mut d = bw;
        while d > 0
            invariant
                self.well_formed(),
                self.analyzed(),
                par == self.rise_tbl@[0]@,
                n == self.n,
                g == adj(self.graph@),
                root == self.root,
                links_ok(par, n),
                bw == self.doubling_bit_width,
                d <= bw,
                0 <= a0 < n,
                0 <= b0 < n,
                a == a0,
                sa == da,
                da == self.depth(a0),
                db == self.depth(b0),
                da <= db,
                0 <= b < n,
                b == anc(par, b0, (db - self.depth(b as int)) as nat),
                da <= self.depth(b as int),
                self.depth(b as int) <= db,
                self.depth(b as int) - da < pow2(d as nat),
            decreases d,
        {
            d -= 1;
            proof {
                assert(self.rise_tbl@[d as int].len() == n);
                assert(self.dist@[b as int] is Some);
            }
            let rise_v = self.rise_tbl[d][b].unwrap();
            proof {
                let p = pow2(d as nat);
                lemma_pow2_pos(d as nat);
                lemma_pow2_unfold((d + 1) as nat);
                lemma_anc_bound(par, n, b as int, p);
                assert(rise_v == anc(par, b as int, p));
                lemma_anc_depth(g, self.dist@, self.step@, par, root, b as int, p);
                lemma_anc_depth(g, self.dist@, self.step@, par, root, b0, db as nat);
                lemma_anc_add(par, b0, (db - self.depth(b as int)) as nat, p);
                lemma_anc_depth(g, self.dist@, self.step@, par, root, b0, (db - self.depth(b as int) + p) as nat);
                assert(self.dist@[rise_v as int] is Some);
            }
            let ghost sb = self.depth(b as int);
            let ghost p = pow2(d as nat);
            if self.step[rise_v].unwrap() >= sa {
                proof {
                    if p <= sb {
                        assert(self.depth(rise_v as int) == sb - p);
                        assert(rise_v == anc(par, b0, (db - self.depth(rise_v as int)) as nat));
                    } else {
                        assert(rise_v == root);
                        assert(self.depth(root) == 0);
                        assert(anc(par, b0, db as nat) == root);
                        assert(rise_v == anc(par, b0, (db - self.depth(rise_v as int)) as nat));
                    }
                }
                b = rise_v;
            }
        }
        let ghost b1 = b as int;
        proof {
            vstd::arithmetic::power2::lemma2_to64();
            assert(self.depth(b1) == da);
        }
        if a != b {
            let ghost a1 = a as int;
            let ghost mut t: nat = 0;
            proof {
                lemma_anc_depth(g, self.dist@, self.step@, par, root, a1, pow2(bw as nat));
                lemma_anc_depth(g, self.dist@, self.step@, par, root, b1, pow2(bw as nat));
                lemma_count_some_le(self.dist@);
                assert(self.dist@[a1] is Some);
            }
            let mut d = bw;
            while d > 0
                invariant
                    self.well_formed(),
                    self.analyzed(),
                    par == self.rise_tbl@[0]@,
                    n == self.n,
                    links_ok(par, n),
                    bw == self.doubling_bit_width,
                    d <= bw,
                    0 <= a1 < n,
                    0 <= b1 < n,
                    0 <= a < n,
                    0 <= b < n,
                    a == anc(par, a1, t),
                    b == anc(par, b1, t),
                    a != b,
                    anc(par, a1, t + pow2(d as nat)) == anc(par, b1, t + pow2(d as nat)),
                decreases d,
            {
                d -= 1;
                proof {
                    assert(self.rise_tbl@[d as int].len() == n);
                    lemma_anc_add(par, a1, t, pow2(d as nat));
                    lemma_anc_add(par, b1, t, pow2(d as nat));
                    lemma_pow2_unfold((d + 1) as nat);
                    lemma_anc_bound(par, n, a1, t + pow2(d as nat));
                    lemma_anc_bound(par, n, b1, t + pow2(d as nat));
                }
                let ra = self.rise_tbl[d][a].unwrap();
                let rb = self.rise_tbl[d][b].unwrap();
                if ra != rb {
                    a = ra;
                    b = rb;
                    proof {
                        t = t + pow2(d as nat);
                    }
                }
            }
            proof {
                assert(self.rise_tbl@[0].len() == n);
                lemma_anc_add(par, a1, t, 1);
                lemma_anc_add(par, b1, t, 1);
                assert(anc(par, a as int, 1) == anc(par, par[a as int].unwrap() as int, 0));
                assert(anc(par, b as int, 1) == anc(par, par[b as int].unwrap() as int, 0));
            }
            a = self.rise_tbl[0][a].unwrap();
            b = self.rise_tbl[0][b].unwrap();
            proof {
                assert(self.ancestor(a0, t + 1) == a);
                assert(self.ancestor(b1, t + 1) == a);
                assert(a1 == a0);
                assert forall|j: nat| j < t + 1 implies #[trigger] self.ancestor(a0, j) != self.ancestor(b1, j) by {
                    if self.ancestor(a0, j) == self.ancestor(b1, j) {
                        lemma_meet_stays(par, a1, b1, j, t);
                    }
                }
                assert(self.first_meet(a0, b1, t + 1, a as int));
            }
        } else {
            proof {
                assert(self.first_meet(a0, b1, 0, a as int));
            }
        }
        proof {
            assert(b1 == self.ancestor(b0, (self.depth(b0) - self.depth(a0)) as nat));
            self.lemma_is_lca_from(a_in, b_in, a0, b0, b1, a as int);
            let c = self.lca_of(a_in, b_in);
            self.lemma_lca_unique(a_in, b_in, a as int, c);
        }
        a
    }

    /// The length of the path between `a` and `b`: the sum of its edge weights.
    pub fn distance(&self, a: usize, b: usize) -> (r: i64)
        requires
            self.well_formed(),
            self.analyzed(),
            a < self.size(),
            b < self.size(),
        ensures
            r == self.dist_from_root(a as int) + self.dist_from_root(b as int) - 2 * self.dist_from_root(
                self.lca_of(a as int, b as int),
            ),
    {
        let lca_v = self.lca(a, b);
        let ghost n = self.n as int;
        let ghost w = weight_bound(n);
        proof {
            lemma_count_some_le(self.dist@);
            assert(self.dist@[a as int] is Some);
            assert(self.dist@[b as int] is Some);
            assert(self.dist@[lca_v as int] is Some);
            assert(w * (4 * n) <= i64::MAX) by {
                vstd::arithmetic::div_mod::lemma_fundamental_div_mod(i64::MAX as int, 4 * n);
            }
            let sa = self.step@[a as int].unwrap() as int;
            let sb = self.step@[b as int].unwrap() as int;
            let sc = self.step@[lca_v as int].unwrap() as int;
            let m = n * w;
            assert(sa * w <= m && sb * w <= m && sc * w <= m && 0 <= sa * w && 0 <= sb * w && 0 <= sc * w) by (nonlinear_arith)
                requires
                    0 <= sa <= n,
                    0 <= sb <= n,
                    0 <= sc <= n,
                    w >= 0,
                    m == n * w,
            ;
            assert(4 * m <= i64::MAX) by (nonlinear_arith)
                requires
                    w * (4 * n) <= i64::MAX,
                    m == n * w,
            ;
        }
        self.dist[a].unwrap() + self.dist[b].unwrap() - 2 * self.dist[lca_v].unwrap()
    }

    /// Add the edge `a - b` of weight `delta`.  Once `n - 1` edges are in (which must then
    /// join all nodes), the tree is rooted and analysed.
    #[verifier::rlimit(80)]
    #[verifier::spinoff_prover]
    pub fn unite_with_distance(&mut self, a: usize, b: usize, delta: i64)
        requires
            old(self).well_formed(),
            a < old(self).size(),
            b < old(self).size(),
            -weight_bound(old(self).size() as int) <= delta <= weight_bound(old(self).size() as int),
            old(self).edge_count() < usize::MAX,
            old(self).edge_count() + 1 >= old(self).size() - 1 ==> old(self).root_node() < old(self).size()
                && old(self).groups_after_edge(a as int, b as int) == 1,
        ensures
            final(self).well_formed(),
            final(self).size() == old(self).size(),
            final(self).root_node() == old(self).root_node(),
            final(self).levels() == old(self).levels(),
            final(self).edge_count() == old(self).edge_count() + 1,
            final(self).edges() == ({
                let e1 = old(self).edges().update(a as int, old(self).edges()[a as int].push((delta, b)));
                e1.update(b as int, e1[b as int].push((delta, a)))
            }),
            final(self).groups() == old(self).groups_after_edge(a as int, b as int),
            old(self).edge_count() + 1 >= old(self).size() - 1 ==> final(self).analyzed(),
            old(self).analyzed() ==> final(self).keeps_analysis(old(self)),
    {
        let ghost g0 = adj(self.graph@);
        let ghost uf0 = self.uf;
        let ghost n = self.n as int;
        self.graph[a].push((delta, b));
        self.graph[b].push((delta, a));
        let ghost g1 = adj(self.graph@);
        proof {
            let e1 = g0.update(a as int, g0[a as int].push((delta, b)));
            assert(g1 =~= e1.update(b as int, e1[b as int].push((delta, a))));
            assert(extends(g0, g1));
            assert forall|u: int, i: int| 0 <= u < n && 0 <= i < g1[u].len() implies (#[trigger] g1[u][i]).1 < n
                && -weight_bound(n) <= g1[u][i].0 <= weight_bound(n) by {
                if i < g0[u].len() {
                    assert(g1[u][i] == g0[u][i]);
                }
            }
        }
        self.edge_cnt += 1;
        proof {
            assert forall|x: int| 0 <= x < n implies #[trigger] self.uf.weight(x) == 0 by {}
        }
        self.uf.unite(a, b);
        proof {
            assert forall|x: int| 0 <= x < n implies #[trigger] self.uf.weight(x) == 0 by {
                assert(uf0.weight(x) == 0);
            }
            lemma_respects_after_edge(uf0, self.uf, g0, g1, a as int, b as int, delta);
            if old(self).analyzed() {
                lemma_tree_inv_extends(g0, g1, self.dist@, self.step@, self.rise_tbl@[0]@, self.root as int);
            }
        }
        if self.edge_cnt >= self.n - 1 {
            let root = self.root;
            self.analyze(root);
        }
    }

    /// Add the edge `a - b` of weight 1.
    pub fn unite(&mut self, a: usize, b: usize)
        requires
            old(self).well_formed(),
            a < old(self).size(),
            b < old(self).size(),
            old(self).edge_count() < usize::MAX,
            old(self).edge_count() + 1 >= old(self).size() - 1 ==> old(self).root_node() < old(self).size()
                && old(self).groups_after_edge(a as int, b as int) == 1,
        ensures
            final(self).well_formed(),
            final(self).size() == old(self).size(),
            final(self).root_node() == old(self).root_node(),
            final(self).levels() == old(self).levels(),
            final(self).edge_count() == old(self).edge_count() + 1,
            final(self).edges() == ({
                let e1 = old(self).edges().update(a as int, old(self).edges()[a as int].push((1i64, b)));
                e1.update(b as int, e1[b as int].push((1i64, a)))
            }),
            final(self).groups() == old(self).groups_after_edge(a as int, b as int),
            old(self).edge_count() + 1 >= old(self).size() - 1 ==> final(self).analyzed(),
            old(self).analyzed() ==> final(self).keeps_analysis(old(self)),
    {
        proof {
            assert(8 * (self.n as int) <= i64::MAX);
            let nn = self.n as int;
            assert(nn >= 1);
            assert(weight_bound(nn) >= 1) by {
                vstd::arithmetic::div_mod::lemma_fundamental_div_mod(i64::MAX as int, 4 * nn);
                let q = (i64::MAX as int) / (4 * nn);
                let r = (i64::MAX as int) % (4 * nn);
                assert(q >= 1) by (nonlinear_arith)
                    requires
                        i64::MAX as int == 4 * nn * q + r,
                        0 <= r < 4 * nn,
                        8 * nn <= i64::MAX,
                        nn >= 1,
                ;
            }
        }
        self.unite_with_distance(a, b, 1);
    }

    /// Root the tree: reach every node from `root` by depth-first search, then fill the
    /// ancestor table level by level.
    #[verifier::spinoff_prover]
    #[verifier::rlimit(50)]
    fn analyze(&mut self, root: usize)
        requires
            old(self).well_formed(),
            root == old(self).root,
            root < old(self).n,
            old(self).uf.spec_group_num() == 1,
        ensures
            final(self).well_formed(),
            final(self).analyzed(),
            final(self).n == old(self).n,
            final(self).root == old(self).root,
            final(self).doubling_bit_width == old(self).doubling_bit_width,
            final(self).graph == old(self).graph,
            final(self).edge_cnt == old(self).edge_cnt,
            final(self).uf == old(self).uf,
            old(self).analyzed() ==> final(self).dist@ == old(self).dist@ && final(self).step@ == old(self).step@
                && final(self).parents() == old(self).parents(),
    {
        let ghost g = adj(self.graph@);
        let ghost n = self.n as int;
        let ghost was = self.analyzed();
        let ghost d_old = self.dist@;
        let ghost s_old = self.step@;
        let ghost r_old = self.rise_tbl@[0]@;
        proof {
            assert(self.rise_tbl@[0].len() == n);
            if was {
                assert(self.dist@[root as int] == Some(0i64));
            }
        }
        self.dist.set(root, Some(0));
        self.step.set(root, Some(0));
        self.rise_tbl[0].set(root, Some(root));
        proof {
            let d1 = self.dist@;
            let s1 = self.step@;
            let r1 = self.rise_tbl@[0]@;
            if was {
                assert(d1 =~= d_old);
                assert(s1 =~= s_old);
                assert(r1 =~= r_old);
            } else {
                lemma_count_some_fill(d_old, root as int, 0i64);
                assert(count_some(d_old) == 0) by {
                    lemma_count_none(d_old);
                }
                assert forall|u: int| 0 <= u < n && #[trigger] d1[u] is Some implies u == root by {
                    assert(d_old[u] is None);
                }
                assert forall|u: int| 0 <= u < n implies (#[trigger] d1[u] is Some <==> s1[u] is Some) && (d1[u] is Some
                    <==> r1[u] is Some) by {
                    if u != root {
                        assert(d_old[u] is None);
                        assert(s_old[u] is None);
                        assert(r_old[u] is None);
                    }
                }
                assert(count_some(d1) == 1);
            }
            assert(tree_inv(g, d1, s1, r1, root as int));
        }
        let ghost d_before = self.dist@;
        let ghost s_before = self.step@;
        let ghost r_before = self.rise_tbl@[0]@;
        Self::dfs(root, None, &self.graph, &mut self.dist, &mut self.step, &mut self.rise_tbl, Ghost(root as int));
        proof {
            if was {
                assert forall|u: int| 0 <= u < n implies #[trigger] self.dist@[u] is Some by {
                    assert(d_before[u] is Some);
                }
                assert(s_before == s_old && r_before == r_old && d_before == d_old);
                assert forall|u: int| 0 <= u < n implies self.step@[u] == s_old[u] && self.rise_tbl@[0]@[u] == r_old[u] by {
                    assert(d_before[u] is Some);
                }
                assert(self.dist@ =~= d_old);
                assert(self.step@ =~= s_old);
                assert(self.rise_tbl@[0]@ =~= r_old);
            } else {
                self.uf.lemma_single_group();
                assert forall|u: int| 0 <= u < n && #[trigger] d_before[u] is Some implies u == root by {
                    assert(d_old[u] is None);
                }
                lemma_first_search(g, self.uf, root as int, d_before, self.dist@);
            }
            lemma_links(g, self.dist@, self.step@, self.rise_tbl@[0]@, root as int);
        }
        let bw = self.doubling_bit_width;
        let nn = self.n;
        proof {
            assert forall|e: int| 0 <= e < bw implies #[trigger] self.rise_tbl@[e]@.len() == nn by {
                assert(self.rise_tbl@[e].len() == nn);
            }
        }
        Self::fill_doubling(&mut self.rise_tbl, nn, bw);
        proof {
            assert forall|e: int| 0 <= e < bw implies #[trigger] self.rise_tbl@[e].len() == nn by {
                assert(self.rise_tbl@[e]@.len() == nn);
            }
        }
    }

    /// Fill the levels `1..bw` of the ancestor table from level 0: the `2^d`-th ancestor is
    /// the `2^(d-1)`-th ancestor of the `2^(d-1)`-th ancestor.
    fn fill_doubling(rise_tbl: &mut Vec<Vec<Option<usize>>>, nn: usize, bw: usize)
        requires
            old(rise_tbl).len() == bw,
            bw >= 1,
            forall|e: int| 0 <= e < bw ==> #[trigger] old(rise_tbl)@[e]@.len() == nn,
            links_ok(old(rise_tbl)@[0]@, nn as int),
        ensures
            final(rise_tbl).len() == bw,
            final(rise_tbl)@[0] == old(rise_tbl)@[0],
            forall|e: int| 0 <= e < bw ==> #[trigger] final(rise_tbl)@[e]@.len() == nn,
            forall|e: int, v: int|
                0 <= e < bw && 0 <= v < nn ==> #[trigger] final(rise_tbl)@[e]@[v] == Some(
                    anc(old(rise_tbl)@[0]@, v, pow2(e as nat)) as usize,
                ),
    {
        let ghost par = rise_tbl@[0]@;
        let ghost n = nn as int;
        proof {
            assert forall|v: int| 0 <= v < n implies #[trigger] rise_tbl@[0]@[v] == Some(anc(par, v, pow2(0)) as usize) by {
                vstd::arithmetic::power2::lemma2_to64();
                assert(anc(par, v, 1) == anc(par, par[v].unwrap() as int, 0));
            }
        }
        for d in 1..bw
            invariant
                rise_tbl.len() == bw,
                forall|e: int| 0 <= e < bw ==> #[trigger] rise_tbl@[e]@.len() == n,
                rise_tbl@[0] == old(rise_tbl)@[0],
                par == rise_tbl@[0]@,
                n == nn,
                links_ok(par, n),
                forall|e: int, v: int|
                    0 <= e < d && 0 <= v < n ==> #[trigger] rise_tbl@[e]@[v] == Some(anc(par, v, pow2(e as nat)) as usize),
        {
            for v in 0..nn
                invariant
                    1 <= d < bw,
                    rise_tbl.len() == bw,
                    forall|e: int| 0 <= e < bw ==> #[trigger] rise_tbl@[e]@.len() == n,
                    rise_tbl@[0] == old(rise_tbl)@[0],
                    par == rise_tbl@[0]@,
                    n == nn,
                    links_ok(par, n),
                    forall|e: int, u: int|
                        0 <= e < d && 0 <= u < n ==> #[trigger] rise_tbl@[e]@[u] == Some(anc(par, u, pow2(e as nat)) as usize),
                    forall|u: int| 0 <= u < v ==> #[trigger] rise_tbl@[d as int]@[u] == Some(anc(par, u, pow2(d as nat)) as usize),
            {
                assert(rise_tbl@[d - 1]@.len() == n);
                let x = rise_tbl[d - 1][v].unwrap();
                proof {
                    lemma_anc_bound(par, n, v as int, pow2((d - 1) as nat));
                    assert(rise_tbl@[d - 1]@[v as int] == Some(anc(par, v as int, pow2((d - 1) as nat)) as usize));
                }
                let y = rise_tbl[d - 1][x];
                proof {
                    lemma_anc_add(par, v as int, pow2((d - 1) as nat), pow2((d - 1) as nat));
                    lemma_pow2_unfold(d as nat);
                    assert(rise_tbl@[d - 1]@[x as int] == Some(anc(par, x as int, pow2((d - 1) as nat)) as usize));
                }
                let ghost before = rise_tbl@;
                assert(before[d as int]@.len() == n);
                rise_tbl[d].set(v, y);
                proof {
                    assert forall|e: int| 0 <= e < bw && e != d implies #[trigger] rise_tbl@[e] == before[e] by {
                    }
                    assert(rise_tbl@[d as int]@ == before[d as int]@.update(v as int, y));
                    assert(rise_tbl@[0] == before[0]);
                    assert forall|e: int| 0 <= e < bw implies #[trigger] rise_tbl@[e]@.len() == n by {
                        if e != d {
                            assert(rise_tbl@[e] == before[e]);
                        }
                    }
                    let p = pow2((d - 1) as nat);
                    assert(pow2(d as nat) == p + p);
                    assert(anc(par, x as int, p) == anc(par, v as int, p + p));
                    assert forall|u: int| 0 <= u < v + 1 implies #[trigger] rise_tbl@[d as int]@[u] == Some(anc(par, u, pow2(d as nat)) as usize) by {
                        if u < v {
                            assert(rise_tbl@[d as int]@[u] == before[d as int]@[u]);
                        }
                    }
                }
            }
        }
    }

    /// Depth-first search from `v` (reached from `pre`): reach every unreached node that can
    /// be reached, recording its parent, depth and distance.
    fn dfs(
        v: usize,
        pre: Option<usize>,
        graph: &Vec<Vec<(i64, usize)>>,
        dist: &mut Vec<Option<i64>>,
        step: &mut Vec<Option<usize>>,
        rise_tbl: &mut Vec<Vec<Option<usize>>>,
        Ghost(root): Ghost<int>,
    )
        requires
            edges_ok(adj(graph@), graph.len() as int),
            graph.len() >= 1,
            old(rise_tbl).len() >= 1,
            tree_inv(adj(graph@), old(dist)@, old(step)@, old(rise_tbl)@[0]@, root),
            v < graph.len(),
            old(dist)@[v as int] is Some,
            pre matches Some(p) ==> p < graph.len() && old(dist)@[p as int] is Some,
        ensures
            final(rise_tbl).len() == old(rise_tbl).len(),
            forall|d: int| 1 <= d < final(rise_tbl).len() ==> #[trigger] final(rise_tbl)@[d] == old(rise_tbl)@[d],
            tree_inv(adj(graph@), final(dist)@, final(step)@, final(rise_tbl)@[0]@, root),
            keeps_reached(old(dist)@, old(step)@, old(rise_tbl)@[0]@, final(dist)@, final(step)@, final(rise_tbl)@[0]@),
            count_some(final(dist)@) >= count_some(old(dist)@),
            forall|u: int|
                0 <= u < graph.len() && #[trigger] final(dist)@[u] is Some && (old(dist)@[u] is None || u == v)
                    ==> neighbours_reached(adj(graph@), final(dist)@, u),
        decreases graph.len() - count_some(old(dist)@),
    {
        let ghost g = adj(graph@);
        let ghost n = graph.len() as int;
        let ghost w = weight_bound(n);
        proof {
            lemma_count_some_le(dist@);
        }
        let len = graph[v].len();
        assert(g[v as int].len() == len);
        let mut i: usize = 0;
        while i < len
            invariant
                g == adj(graph@),
                n == graph.len(),
                n >= 1,
                w == weight_bound(n),
                edges_ok(g, n),
                len == g[v as int].len(),
                0 <= i <= len,
                v < n,
                rise_tbl.len() == old(rise_tbl).len(),
                rise_tbl.len() >= 1,
                forall|d: int| 1 <= d < rise_tbl.len() ==> #[trigger] rise_tbl@[d] == old(rise_tbl)@[d],
                tree_inv(g, dist@, step@, rise_tbl@[0]@, root),
                keeps_reached(old(dist)@, old(step)@, old(rise_tbl)@[0]@, dist@, step@, rise_tbl@[0]@),
                count_some(dist@) >= count_some(old(dist)@),
                dist@[v as int] is Some,
                pre matches Some(p) ==> p < n && dist@[p as int] is Some,
                forall|j: int| 0 <= j < i ==> dist@[(#[trigger] g[v as int][j]).1 as int] is Some,
                forall|u: int|
                    0 <= u < n && #[trigger] dist@[u] is Some && old(dist)@[u] is None ==> neighbours_reached(g, dist@, u),
            decreases len - i,
        {
            let (delta, nv) = graph[v][i];
            assert((delta, nv) == g[v as int][i as int]);
            let skip = match pre {
                Some(p) => nv == p,
                None => false,
            };
            if !skip && dist[nv].is_none() {
                let ghost d0 = dist@;
                let ghost s0 = step@;
                let ghost r0 = rise_tbl@[0]@;
                let ghost c0 = count_some(d0);
                let dv = dist[v].unwrap();
                let sv = step[v].unwrap();
                proof {
                    lemma_extend_bounds(g, d0, s0, r0, root, v as int, i as int);
                }
                dist.set(nv, Some(dv + delta));
                step.set(nv, Some(sv + 1));
                rise_tbl[0].set(nv, Some(v));
                proof {
                    lemma_extend_tree(g, d0, s0, r0, root, v as int, i as int);
                    lemma_count_some_le(dist@);
                }
                let ghost before_call = dist@;
                Self::dfs(nv, Some(v), graph, dist, step, rise_tbl, Ghost(root));
                proof {
                    assert(dist@[nv as int] is Some);
                    assert forall|j: int| 0 <= j < i implies dist@[(#[trigger] g[v as int][j]).1 as int] is Some by {
                        assert(before_call[g[v as int][j].1 as int] is Some);
                    }
                    assert forall|u: int|
                        0 <= u < n && #[trigger] dist@[u] is Some && old(dist)@[u] is None implies neighbours_reached(g, dist@, u) by {
                        if before_call[u] is Some && u != nv {
                            assert(neighbours_reached(g, before_call, u));
                            assert forall|k: int| 0 <= k < g[u].len() implies dist@[(#[trigger] g[u][k]).1 as int] is Some by {
                                assert(before_call[g[u][k].1 as int] is Some);
                            }
                        }
                    }
                }
            }
            proof {
                assert(dist@[nv as int] is Some);
            }
            i += 1;
        }
    }
}

} // verus!
