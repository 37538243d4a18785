//! Decomposition of a directed graph into groups by two depth-first passes (Kosaraju).
use vstd::prelude::*;
use crate::ordering::reverse_vec;

verus! {

/// The adjacency lists as sequences.
pub open spec fn adj_lists(graph: Seq<Vec<usize>>) -> Seq<Seq<usize>> {
    graph.map_values(|e: Vec<usize>| e@)
}

/// Every edge leads to one of the `n` nodes.
pub open spec fn targets_ok(g: Seq<Seq<usize>>, n: int) -> bool {
    &&& g.len() == n
    &&& forall|u: int, i: int| 0 <= u < n && 0 <= i < g[u].len() ==> #[trigger] g[u][i] < n
}

/// There is an edge `v -> u` in `g`.
pub open spec fn has_edge(g: Seq<Seq<usize>>, v: int, u: int) -> bool {
    exists|j: int| 0 <= j < g[v].len() && #[trigger] g[v][j] == u
}

/// The number of `false` entries.
pub open spec fn count_false(s: Seq<bool>) -> nat
    decreases s.len(),
{
    if s.len() == 0 {
        0
    } else {
        count_false(s.drop_last()) + if s.last() {
            0nat
        } else {
            1nat
        }
    }
}

proof fn lemma_count_false_mark(s: Seq<bool>, i: int)
    requires
        0 <= i < s.len(),
        !s[i],
    ensures
        count_false(s.update(i, true)) + 1 == count_false(s),
    decreases s.len(),
{
    let t = s.update(i, true);
    if i < s.len() - 1 {
        assert(t.drop_last() =~= s.drop_last().update(i, true));
        lemma_count_false_mark(s.drop_last(), i);
    } else {
        assert(t.drop_last() =~= s.drop_last());
    }
}

/// What a depth-first search from `v` guarantees: the nodes it marks are exactly the ones
/// it appends (each once, `v` last), and every neighbour of an appended node is marked.
pub open spec fn dfs_post(
    g: Seq<Seq<usize>>,
    v: int,
    seen0: Seq<bool>,
    seen1: Seq<bool>,
    out0: Seq<usize>,
    out1: Seq<usize>,
) -> bool {
    let n = g.len() as int;
    let added = out1.subrange(out0.len() as int, out1.len() as int);
    &&& seen1.len() == n
    &&& out1.len() >= out0.len()
    &&& out1.subrange(0, out0.len() as int) == out0
    &&& forall|u: int| 0 <= u < n && #[trigger] seen0[u] ==> seen1[u]
    &&& forall|u: int| 0 <= u < n ==> (#[trigger] seen1[u] && !seen0[u] <==> added.contains(u as usize))
    &&& added.no_duplicates()
    &&& forall|k: int| 0 <= k < added.len() ==> #[trigger] added[k] < n
    &&& added.len() > 0 && added.last() == v
    &&& forall|k: int, i: int|
        0 <= k < added.len() && 0 <= i < g[added[k] as int].len() ==> seen1[#[trigger] g[added[k] as int][i] as int]
    &&& forall|k: int| 0 <= k < added.len() ==> graph_reaches(g, n, v, #[trigger] added[k] as int)
}

/// The state inside a search from `v`, between two neighbours: `v` is marked but not yet
/// appended; the nodes appended so far are exactly the other newly marked ones.
pub open spec fn dfs_progress(
    g: Seq<Seq<usize>>,
    v: int,
    seen0: Seq<bool>,
    seen: Seq<bool>,
    out0: Seq<usize>,
    out: Seq<usize>,
) -> bool {
    let n = g.len() as int;
    let added = out.subrange(out0.len() as int, out.len() as int);
    &&& seen.len() == n
    &&& seen[v]
    &&& !seen0[v]
    &&& out.len() >= out0.len()
    &&& out.subrange(0, out0.len() as int) == out0
    &&& forall|u: int| 0 <= u < n && #[trigger] seen0[u] ==> seen[u]
    &&& forall|u: int| 0 <= u < n ==> (#[trigger] seen[u] && !seen0[u] <==> added.contains(u as usize) || u == v)
    &&& added.no_duplicates()
    &&& !added.contains(v as usize)
    &&& forall|k: int| 0 <= k < added.len() ==> #[trigger] added[k] < n
    &&& forall|k: int, i: int|
        0 <= k < added.len() && 0 <= i < g[added[k] as int].len() ==> seen[#[trigger] g[added[k] as int][i] as int]
    &&& forall|k: int| 0 <= k < added.len() ==> graph_reaches(g, n, v, #[trigger] added[k] as int)
}

/// A nested search from an unmarked node keeps the progress of the enclosing one.
proof fn lemma_dfs_nested(
    g: Seq<Seq<usize>>,
    v: int,
    nv: int,
    seen0: Seq<bool>,
    seen1: Seq<bool>,
    seen2: Seq<bool>,
    out0: Seq<usize>,
    out1: Seq<usize>,
    out2: Seq<usize>,
)
    requires
        0 <= v < g.len(),
        0 <= nv < g.len(),
        g.len() <= usize::MAX,
        targets_ok(g, g.len() as int),
        seen0.len() == g.len(),
        dfs_progress(g, v, seen0, seen1, out0, out1),
        !seen1[nv],
        has_edge(g, v, nv),
        dfs_post(g, nv, seen1, seen2, out1, out2),
    ensures
        dfs_progress(g, v, seen0, seen2, out0, out2),
        seen2[nv],
        forall|u: int| 0 <= u < g.len() && #[trigger] seen1[u] ==> seen2[u],
{
    let n = g.len() as int;
    let a1 = out1.subrange(out0.len() as int, out1.len() as int);
    let a2 = out2.subrange(out1.len() as int, out2.len() as int);
    let a = out2.subrange(out0.len() as int, out2.len() as int);
    assert(out2.subrange(0, out1.len() as int) == out1);
    assert(a =~= a1 + a2);
    assert(out2.subrange(0, out0.len() as int) =~= out0) by {
        assert(out2.subrange(0, out0.len() as int) =~= out1.subrange(0, out0.len() as int));
    }
    assert forall|i: int, j: int| 0 <= i < a1.len() && 0 <= j < a2.len() implies a1[i] != a2[j] by {
        assert(a1.contains(a1[i]));
        assert(a1[i] < n);
        assert(seen1[a1[i] as int]);
        assert(a2.contains(a2[j]));
        assert(a2[j] < n);
    }
    vstd::seq_lib::lemma_no_dup_in_concat(a1, a2);
    assert(seen2[nv]) by {
        assert(a2.contains(a2.last()));
    }
    assert forall|u: int| 0 <= u < n implies (#[trigger] seen2[u] && !seen0[u] <==> a.contains(u as usize) || u == v) by {
        assert(seen0[u] ==> seen1[u]);
        assert(seen1[u] ==> seen2[u]);
        assert(seen1[u] && !seen0[u] <==> a1.contains(u as usize) || u == v);
        assert(seen2[u] && !seen1[u] <==> a2.contains(u as usize));
        if a1.contains(u as usize) {
            let k = choose|k: int| 0 <= k < a1.len() && a1[k] == u as usize;
            assert(a[k] == u as usize);
        }
        if a2.contains(u as usize) {
            let k = choose|k: int| 0 <= k < a2.len() && a2[k] == u as usize;
            assert(a[a1.len() + k] == u as usize);
        }
        if a.contains(u as usize) {
            let k = choose|k: int| 0 <= k < a.len() && a[k] == u as usize;
            if k < a1.len() {
                assert(a1[k] == u as usize);
                assert(a1.contains(u as usize));
            } else {
                assert(a2[k - a1.len()] == u as usize);
                assert(a2.contains(u as usize));
            }
        }
    }
    assert(!a.contains(v as usize)) by {
        if a.contains(v as usize) {
            let k = choose|k: int| 0 <= k < a.len() && a[k] == v as usize;
            if k < a1.len() {
                assert(a1[k] == v as usize);
                assert(a1.contains(v as usize));
            } else {
                assert(a2[k - a1.len()] == v as usize);
                assert(a2.contains(v as usize));
            }
        }
    }
    assert forall|k: int| 0 <= k < a.len() implies #[trigger] a[k] < n by {
        if k < a1.len() {
            assert(a[k] == a1[k]);
        } else {
            assert(a[k] == a2[k - a1.len()]);
        }
    }
    assert forall|k: int, i: int| 0 <= k < a.len() && 0 <= i < g[a[k] as int].len() implies seen2[#[trigger] g[a[k] as int][i] as int] by {
        if k < a1.len() {
            assert(a[k] == a1[k]);
            assert(seen1[g[a1[k] as int][i] as int]);
            assert(g[a1[k] as int][i] < n);
        } else {
            assert(a[k] == a2[k - a1.len()]);
        }
    }
    assert forall|k: int| 0 <= k < a.len() implies graph_reaches(g, n, v, #[trigger] a[k] as int) by {
        if k < a1.len() {
            assert(a[k] == a1[k]);
        } else {
            assert(a[k] == a2[k - a1.len()]);
            lemma_reach_prepend(g, n, v, nv, a2[k - a1.len()] as int);
        }
    }
}

/// A node reaches itself.
proof fn lemma_reach_self(g: Seq<Seq<usize>>, n: int, v: int)
    requires
        0 <= v < n,
    ensures
        graph_reaches(g, n, v, v),
{
    let p = seq![v];
    assert(is_path(g, n, p));
}

/// An edge followed by a path is a path.
proof fn lemma_reach_prepend(g: Seq<Seq<usize>>, n: int, v: int, u: int, w: int)
    requires
        0 <= v < n,
        has_edge(g, v, u),
        graph_reaches(g, n, u, w),
    ensures
        graph_reaches(g, n, v, w),
{
    let p = choose|p: Seq<int>| #[trigger] is_path(g, n, p) && p[0] == u && p.last() == w;
    let q = seq![v] + p;
    assert forall|i: int| 0 <= i < q.len() implies 0 <= #[trigger] q[i] < n by {
        if i > 0 {
            assert(q[i] == p[i - 1]);
        }
    }
    assert forall|i: int| 0 <= i < q.len() - 1 implies #[trigger] has_edge(g, q[i], q[i + 1]) by {
        if i == 0 {
            assert(q[1] == p[0]);
        } else {
            assert(q[i] == p[i - 1]);
            assert(q[i + 1] == p[i]);
            assert(has_edge(g, p[i - 1], p[(i - 1) + 1]));
        }
    }
    assert(is_path(g, n, q));
    assert(q[0] == v && q.last() == w);
}

/// A path along the reversed edges, read backwards, is a path along the edges.
proof fn lemma_reach_reverse(g: Seq<Seq<usize>>, b: Seq<Seq<usize>>, n: int, u: int, w: int)
    requires
        forall|x: int, y: int| 0 <= x < n && 0 <= y < n ==> (#[trigger] has_edge(b, x, y) <==> has_edge(g, y, x)),
        graph_reaches(b, n, u, w),
    ensures
        graph_reaches(g, n, w, u),
{
    let p = choose|p: Seq<int>| #[trigger] is_path(b, n, p) && p[0] == u && p.last() == w;
    let q = p.reverse();
    let m = p.len() as int;
    assert forall|i: int| 0 <= i < q.len() implies 0 <= #[trigger] q[i] < n by {
        assert(q[i] == p[m - 1 - i]);
    }
    assert forall|i: int| 0 <= i < q.len() - 1 implies #[trigger] has_edge(g, q[i], q[i + 1]) by {
        let j = m - 2 - i;
        assert(q[i] == p[j + 1]);
        assert(q[i + 1] == p[j]);
        assert(has_edge(b, p[j], p[j + 1]));
        assert(0 <= p[j] < n && 0 <= p[j + 1] < n);
    }
    assert(is_path(g, n, q));
    assert(q[0] == w && q.last() == u);
}

/// An edge is a path.
proof fn lemma_reach_edge(g: Seq<Seq<usize>>, n: int, a: int, c: int)
    requires
        0 <= a < n,
        0 <= c < n,
        has_edge(g, a, c),
    ensures
        graph_reaches(g, n, a, c),
{
    lemma_reach_self(g, n, c);
    lemma_reach_prepend(g, n, a, c, c);
}

/// Two paths joined end to end make a path.
proof fn lemma_reach_trans(g: Seq<Seq<usize>>, n: int, a: int, c: int, e: int)
    requires
        graph_reaches(g, n, a, c),
        graph_reaches(g, n, c, e),
    ensures
        graph_reaches(g, n, a, e),
{
    let p = choose|p: Seq<int>| #[trigger] is_path(g, n, p) && p[0] == a && p.last() == c;
    lemma_reach_trans_path(g, n, p, e);
}

/// A path followed by a path from its end.
proof fn lemma_reach_trans_path(g: Seq<Seq<usize>>, n: int, p: Seq<int>, e: int)
    requires
        is_path(g, n, p),
        graph_reaches(g, n, p.last(), e),
    ensures
        graph_reaches(g, n, p[0], e),
    decreases p.len(),
{
    if p.len() > 1 {
        let q = p.subrange(1, p.len() as int);
        lemma_path_suffix(g, n, p, 1);
        assert(has_edge(g, p[0], p[0int + 1]));
        assert(q[0] == p[1]);
        assert(q.last() == p.last());
        lemma_reach_trans_path(g, n, q, e);
        lemma_reach_prepend(g, n, p[0], p[1], e);
    }
}

/// The tail of a path is a path.
proof fn lemma_path_suffix(g: Seq<Seq<usize>>, n: int, p: Seq<int>, a: int)
    requires
        is_path(g, n, p),
        0 <= a < p.len(),
    ensures
        is_path(g, n, p.subrange(a, p.len() as int)),
{
    let q = p.subrange(a, p.len() as int);
    assert forall|i: int| 0 <= i < q.len() implies 0 <= #[trigger] q[i] < n by {
        assert(q[i] == p[a + i]);
    }
    assert forall|i: int| 0 <= i < q.len() - 1 implies #[trigger] has_edge(g, q[i], q[i + 1]) by {
        assert(q[i] == p[a + i]);
        assert(q[i + 1] == p[(a + i) + 1]);
        assert(has_edge(g, p[a + i], p[(a + i) + 1]));
    }
}

/// The neighbours of the finished nodes (those in `o`) are all marked.
spec fn black_closed(g: Seq<Seq<usize>>, o: Seq<usize>, seen: Seq<bool>) -> bool {
    forall|k: int, j: int| 0 <= k < o.len() && 0 <= j < g[o[k] as int].len() ==> seen[#[trigger] g[o[k] as int][j] as int]
}

/// Every marked node that has not finished reaches `v`.
spec fn grays_reach(g: Seq<Seq<usize>>, n: int, o: Seq<usize>, seen: Seq<bool>, v: int) -> bool {
    forall|u: int| 0 <= u < n && #[trigger] seen[u] && !o.contains(u as usize) ==> graph_reaches(g, n, u, v)
}

/// When `o[i]` finished, each node it reaches had finished too, or is reached from a node that
/// had not finished yet and that reaches `o[i]` and is reached from it.
spec fn finish_ok(g: Seq<Seq<usize>>, n: int, o: Seq<usize>, i: int) -> bool {
    forall|y: int|
        0 <= y < n && #[trigger] graph_reaches(g, n, o[i] as int, y) ==> o.subrange(0, i + 1).contains(y as usize)
            || exists|w: int|
            0 <= w < n && graph_reaches(g, n, o[i] as int, w) && graph_reaches(g, n, w, o[i] as int) && !o.subrange(
                0,
                i + 1,
            ).contains(w as usize) && #[trigger] graph_reaches(g, n, w, y)
}

/// Every node of the finishing order `o` finished as `finish_ok` says.
spec fn order_ok(g: Seq<Seq<usize>>, n: int, o: Seq<usize>) -> bool {
    forall|i: int| 0 <= i < o.len() ==> #[trigger] finish_ok(g, n, o, i)
}

proof fn lemma_order_ok_extend(g: Seq<Seq<usize>>, n: int, o: Seq<usize>, o2: Seq<usize>)
    requires
        order_ok(g, n, o),
        o.len() <= o2.len(),
        o2.subrange(0, o.len() as int) == o,
    ensures
        forall|i: int| 0 <= i < o.len() ==> #[trigger] finish_ok(g, n, o2, i),
{
    assert forall|i: int| 0 <= i < o.len() implies #[trigger] finish_ok(g, n, o2, i) by {
        assert(finish_ok(g, n, o, i));
        assert(o2[i] == o2.subrange(0, o.len() as int)[i]);
        assert(o2.subrange(0, i + 1) =~= o.subrange(0, i + 1));
    }
}

/// Along a path from a finished node, either the end has finished, or the path passes a
/// marked node that has not finished.
proof fn lemma_first_gray(g: Seq<Seq<usize>>, n: int, p: Seq<int>, o: Seq<usize>, seen: Seq<bool>)
    requires
        is_path(g, n, p),
        o.contains(p[0] as usize),
        black_closed(g, o, seen),
        g.len() == n,
        n <= usize::MAX,
    ensures
        o.contains(p.last() as usize) || exists|w: int|
            0 <= w < n && seen[w] && !o.contains(w as usize) && graph_reaches(g, n, p[0], w) && #[trigger] graph_reaches(
                g,
                n,
                w,
                p.last(),
            ),
    decreases p.len(),
{
    if p.len() > 1 {
        let q = p.subrange(1, p.len() as int);
        lemma_path_suffix(g, n, p, 1);
        assert(q[0] == p[1] && q.last() == p.last());
        assert(has_edge(g, p[0], p[0int + 1]));
        let kk = choose|kk: int| 0 <= kk < o.len() && o[kk] == p[0] as usize;
        assert(0 <= p[0] < n);
        assert(o[kk] as int == p[0]);
        let jj = choose|jj: int| 0 <= jj < g[p[0]].len() && #[trigger] g[p[0]][jj] == p[1];
        assert(0 <= jj < g[o[kk] as int].len());
        assert(seen[g[o[kk] as int][jj] as int]);
        assert(seen[p[1]]);
        if o.contains(p[1] as usize) {
            lemma_first_gray(g, n, q, o, seen);
            if !o.contains(p.last() as usize) {
                let w = choose|w: int|
                    0 <= w < n && seen[w] && !o.contains(w as usize) && graph_reaches(g, n, q[0], w) && #[trigger] graph_reaches(
                        g,
                        n,
                        w,
                        q.last(),
                    );
                lemma_reach_prepend(g, n, p[0], p[1], w);
            }
        } else {
            lemma_reach_edge(g, n, p[0], p[1]);
            assert(graph_reaches(g, n, p[1], p.last())) by {
                assert(is_path(g, n, q));
            }
        }
    }
}

proof fn lemma_finish_ok_at(g: Seq<Seq<usize>>, n: int, o: Seq<usize>, i: int, y: int)
    requires
        finish_ok(g, n, o, i),
        0 <= y < n,
        graph_reaches(g, n, o[i] as int, y),
    ensures
        o.subrange(0, i + 1).contains(y as usize) || exists|w: int|
            0 <= w < n && graph_reaches(g, n, o[i] as int, w) && graph_reaches(g, n, w, o[i] as int) && !o.subrange(
                0,
                i + 1,
            ).contains(w as usize) && #[trigger] graph_reaches(g, n, w, y),
{
}

/// With every node in the finishing order, a node `o[i]` reaching `o[j]` reaches and is
/// reached from some node finished no earlier than `o[j]`.
#[verifier::spinoff_prover]
#[verifier::rlimit(40)]
proof fn lemma_finish_max(g: Seq<Seq<usize>>, n: int, o: Seq<usize>, i: int, j: int)
    requires
        n <= usize::MAX,
        order_ok(g, n, o),
        o.no_duplicates(),
        forall|u: int| 0 <= u < n ==> #[trigger] o.contains(u as usize),
        forall|k: int| 0 <= k < o.len() ==> #[trigger] o[k] < n,
        0 <= i < o.len(),
        0 <= j < o.len(),
        graph_reaches(g, n, o[i] as int, o[j] as int),
    ensures
        exists|k: int|
            j <= k < o.len() && graph_reaches(g, n, o[i] as int, #[trigger] o[k] as int) && graph_reaches(
                g,
                n,
                o[k] as int,
                o[i] as int,
            ),
    decreases o.len() - i,
{
    assert(finish_ok(g, n, o, i));
    let y = o[j] as int;
    assert(o[j] < n);
    assert(o[i] < n);
    lemma_finish_ok_at(g, n, o, i, y);
    if o.subrange(0, i + 1).contains(y as usize) {
        let pre = o.subrange(0, i + 1);
        let t = choose|t: int| 0 <= t < pre.len() && #[trigger] pre[t] == y as usize;
        assert(pre[t] == o[t]);
        assert(o[t] == o[j]);
        assert(t == j);
        lemma_reach_self(g, n, o[i] as int);
        assert(graph_reaches(g, n, o[i] as int, o[i] as int));
    } else {
        let w = choose|w: int|
            0 <= w < n && graph_reaches(g, n, o[i] as int, w) && graph_reaches(g, n, w, o[i] as int) && !o.subrange(0, i + 1).contains(
                w as usize,
            ) && #[trigger] graph_reaches(g, n, w, y);
        assert(o.contains(w as usize));
        let i2 = choose|i2: int| 0 <= i2 < o.len() && o[i2] == w as usize;
        assert(o[i2] as int == w);
        if i2 <= i {
            assert(o.subrange(0, i + 1)[i2] == w as usize);
        }
        lemma_finish_max(g, n, o, i2, j);
        let k = choose|k: int|
            j <= k < o.len() && graph_reaches(g, n, o[i2] as int, #[trigger] o[k] as int) && graph_reaches(
                g,
                n,
                o[k] as int,
                o[i2] as int,
            );
        lemma_reach_trans(g, n, o[i] as int, w, o[k] as int);
        lemma_reach_trans(g, n, o[k] as int, w, o[i] as int);
    }
}

/// Finishing `v` once every neighbour of a finished node is marked and every unfinished marked
/// node reaches `v` keeps the finishing order as `order_ok` says.
proof fn lemma_finish_step(g: Seq<Seq<usize>>, n: int, o: Seq<usize>, seen: Seq<bool>, v: int)
    requires
        n == g.len(),
        n <= usize::MAX,
        0 <= v < n,
        seen.len() == n,
        black_closed(g, o.push(v as usize), seen),
        grays_reach(g, n, o, seen, v),
        order_ok(g, n, o),
    ensures
        order_ok(g, n, o.push(v as usize)),
{
    let o2 = o.push(v as usize);
    let l = o.len() as int;
    assert(o2.subrange(0, l) =~= o);
    lemma_order_ok_extend(g, n, o, o2);
    assert(o2.subrange(0, l + 1) =~= o2);
    assert forall|y: int| 0 <= y < n && #[trigger] graph_reaches(g, n, o2[l] as int, y) implies o2.subrange(0, l + 1).contains(
        y as usize,
    ) || exists|w: int|
        0 <= w < n && graph_reaches(g, n, o2[l] as int, w) && graph_reaches(g, n, w, o2[l] as int) && !o2.subrange(
            0,
            l + 1,
        ).contains(w as usize) && #[trigger] graph_reaches(g, n, w, y) by {
        assert(o2[l] as int == v);
        let p = choose|p: Seq<int>| #[trigger] is_path(g, n, p) && p[0] == v && p.last() == y;
        assert(o2[l] == v as usize);
        assert(o2.contains(p[0] as usize));
        lemma_first_gray(g, n, p, o2, seen);
        if !o2.contains(y as usize) {
            let w = choose|w: int|
                0 <= w < n && seen[w] && !o2.contains(w as usize) && graph_reaches(g, n, p[0], w) && #[trigger] graph_reaches(
                    g,
                    n,
                    w,
                    p.last(),
                );
            assert(!o.contains(w as usize)) by {
                if o.contains(w as usize) {
                    let t = choose|t: int| 0 <= t < o.len() && o[t] == w as usize;
                    assert(o2[t] == w as usize);
                }
            }
            assert(graph_reaches(g, n, w, v));
        }
    }
    assert(finish_ok(g, n, o2, l));
}

/// Once the groups found so far are closed under reversed edges, a path from an unmarked
/// node stays among unmarked nodes.
proof fn lemma_unseen_closed(
    g: Seq<Seq<usize>>,
    b: Seq<Seq<usize>>,
    n: int,
    seen: Seq<bool>,
    groups: Seq<Seq<usize>>,
    p: Seq<int>,
)
    requires
        n <= usize::MAX,
        partial_ok(b, n, seen, groups),
        forall|x: int, y: int| 0 <= x < n && 0 <= y < n ==> (#[trigger] has_edge(b, x, y) <==> has_edge(g, y, x)),
        is_path(g, n, p),
        !seen[p[0]],
    ensures
        !seen[p.last()],
    decreases p.len(),
{
    if p.len() > 1 {
        let q = p.subrange(1, p.len() as int);
        lemma_path_suffix(g, n, p, 1);
        assert(q[0] == p[1] && q.last() == p.last());
        assert(has_edge(g, p[0], p[0int + 1]));
        assert(0 <= p[0] < n && 0 <= p[1] < n);
        if seen[p[1]] {
            assert(flatten(groups).contains(p[1] as usize));
            lemma_flatten_contains(groups, p[1] as usize);
            let kk = choose|kk: int| 0 <= kk < groups.len() && #[trigger] groups[kk].contains(p[1] as usize);
            assert(in_group(groups, kk, p[1]));
            assert(has_edge(b, p[1], p[0]));
            let k2 = choose|k2: int| 0 <= k2 <= kk && #[trigger] in_group(groups, k2, p[0]);
            lemma_flatten_contains(groups, p[0] as usize);
            assert(groups[k2].contains(p[0] as usize));
            assert(flatten(groups).contains(p[0] as usize));
            assert(false);
        }
        lemma_unseen_closed(g, b, n, seen, groups, q);
    }
}

/// The first unmarked node `r` in the reversed finishing order reaches every unmarked node
/// that reaches it.
proof fn lemma_root_reaches(
    g: Seq<Seq<usize>>,
    b: Seq<Seq<usize>>,
    n: int,
    fo: Seq<usize>,
    k: int,
    seen: Seq<bool>,
    groups: Seq<Seq<usize>>,
    x: int,
)
    requires
        n == g.len(),
        n <= usize::MAX,
        partial_ok(b, n, seen, groups),
        forall|u: int, v: int| 0 <= u < n && 0 <= v < n ==> (#[trigger] has_edge(b, u, v) <==> has_edge(g, v, u)),
        order_ok(g, n, fo),
        fo.no_duplicates(),
        forall|u: int| 0 <= u < n ==> #[trigger] fo.contains(u as usize),
        forall|t: int| 0 <= t < fo.len() ==> #[trigger] fo[t] < n,
        0 <= k < fo.len(),
        forall|t: int| 0 <= t < k ==> seen[#[trigger] fo.reverse()[t] as int],
        0 <= x < n,
        !seen[x],
        graph_reaches(g, n, x, fo.reverse()[k] as int),
    ensures
        graph_reaches(g, n, fo.reverse()[k] as int, x),
{
    let len = fo.len() as int;
    let r = fo.reverse()[k];
    let j = len - 1 - k;
    assert(fo[j] == r);
    assert(fo.contains(x as usize));
    let ix = choose|ix: int| 0 <= ix < fo.len() && fo[ix] == x as usize;
    assert(fo[ix] as int == x);
    lemma_finish_max(g, n, fo, ix, j);
    let t = choose|t: int|
        j <= t < fo.len() && graph_reaches(g, n, fo[ix] as int, #[trigger] fo[t] as int) && graph_reaches(
            g,
            n,
            fo[t] as int,
            fo[ix] as int,
        );
    let z = fo[t] as int;
    let p = choose|p: Seq<int>| #[trigger] is_path(g, n, p) && p[0] == x && p.last() == z;
    lemma_unseen_closed(g, b, n, seen, groups, p);
    assert(!seen[z]);
    if t > j {
        let t2 = len - 1 - t;
        assert(0 <= t2 < k);
        assert(fo.reverse()[t2] == fo[t]);
        assert(seen[fo.reverse()[t2] as int]);
        assert(false);
    }
}

proof fn lemma_count_false_mono(s1: Seq<bool>, s2: Seq<bool>)
    requires
        s1.len() == s2.len(),
        forall|u: int| 0 <= u < s1.len() && #[trigger] s1[u] ==> s2[u],
    ensures
        count_false(s2) <= count_false(s1),
    decreases s1.len(),
{
    if s1.len() > 0 {
        lemma_count_false_mono(s1.drop_last(), s2.drop_last());
    }
}

/// The groups, concatenated.
pub open spec fn flatten(groups: Seq<Seq<usize>>) -> Seq<usize>
    decreases groups.len(),
{
    if groups.len() == 0 {
        Seq::empty()
    } else {
        flatten(groups.drop_last()) + groups.last()
    }
}

/// The position of the group holding `u`, if any.
pub open spec fn in_group(groups: Seq<Seq<usize>>, k: int, u: int) -> bool {
    0 <= k < groups.len() && groups[k].contains(u as usize)
}

/// A node is in the concatenation of the groups exactly when some group holds it.
proof fn lemma_flatten_contains(groups: Seq<Seq<usize>>, u: usize)
    ensures
        flatten(groups).contains(u) <==> exists|k: int| 0 <= k < groups.len() && #[trigger] groups[k].contains(u),
    decreases groups.len(),
{
    if groups.len() > 0 {
        let init = groups.drop_last();
        lemma_flatten_contains(init, u);
        let f = flatten(groups);
        let fi = flatten(init);
        let l = groups.last();
        assert(f == fi + l);
        if f.contains(u) {
            let i = choose|i: int| 0 <= i < f.len() && f[i] == u;
            if i < fi.len() {
                assert(fi[i] == u);
                assert(fi.contains(u));
                let k = choose|k: int| 0 <= k < init.len() && #[trigger] init[k].contains(u);
                assert(groups[k] == init[k]);
            } else {
                assert(l[i - fi.len()] == u);
                assert(groups[groups.len() - 1].contains(u));
            }
        }
        if exists|k: int| 0 <= k < groups.len() && #[trigger] groups[k].contains(u) {
            let k = choose|k: int| 0 <= k < groups.len() && #[trigger] groups[k].contains(u);
            if k < init.len() {
                assert(init[k] == groups[k]);
                assert(fi.contains(u));
                let i = choose|i: int| 0 <= i < fi.len() && fi[i] == u;
                assert(f[i] == u);
            } else {
                let i = choose|i: int| 0 <= i < l.len() && l[i] == u;
                assert(f[fi.len() + i] == u);
            }
        }
    }
}

/// The groups as sequences.
pub open spec fn group_seqs(groups: Seq<Vec<usize>>) -> Seq<Seq<usize>> {
    groups.map_values(|g: Vec<usize>| g@)
}

/// The properties of a decomposition of `n` nodes: the groups are non-empty and hold
/// every node exactly once, and every edge into a group comes from that group or an
/// earlier one.
pub open spec fn decomposition_ok(g: Seq<Seq<usize>>, n: int, groups: Seq<Seq<usize>>) -> bool {
    &&& flatten(groups).no_duplicates()
    &&& forall|u: int| 0 <= u < n ==> #[trigger] flatten(groups).contains(u as usize)
    &&& forall|k: int, i: int| 0 <= k < groups.len() && 0 <= i < groups[k].len() ==> #[trigger] groups[k][i] < n
    &&& forall|k: int| 0 <= k < groups.len() ==> #[trigger] groups[k].len() > 0
    &&& forall|k: int, x: int, y: int|
        #![trigger in_group(groups, k, x), has_edge(g, y, x)]
        in_group(groups, k, x) && 0 <= x < n && 0 <= y < n && has_edge(g, y, x) ==> exists|k2: int|
            0 <= k2 <= k && #[trigger] in_group(groups, k2, y)
}

/// The groups found so far by the backward pass: the marked nodes are exactly those in
/// the groups, each once, and every backward neighbour of a group member is in that group
/// or an earlier one.
pub open spec fn partial_ok(b: Seq<Seq<usize>>, n: int, seen: Seq<bool>, groups: Seq<Seq<usize>>) -> bool {
    &&& seen.len() == n
    &&& forall|u: int| 0 <= u < n ==> (#[trigger] seen[u] <==> flatten(groups).contains(u as usize))
    &&& flatten(groups).no_duplicates()
    &&& forall|k: int, i: int| 0 <= k < groups.len() && 0 <= i < groups[k].len() ==> #[trigger] groups[k][i] < n
    &&& forall|k: int| 0 <= k < groups.len() ==> #[trigger] groups[k].len() > 0
    &&& forall|k: int, x: int, y: int|
        #![trigger in_group(groups, k, x), has_edge(b, x, y)]
        in_group(groups, k, x) && 0 <= x < n && 0 <= y < n && has_edge(b, x, y) ==> exists|k2: int|
            0 <= k2 <= k && #[trigger] in_group(groups, k2, y)
    &&& forall|k: int, i: int|
        0 <= k < groups.len() && 0 <= i < groups[k].len() ==> graph_reaches(b, n, groups[k][0] as int, #[trigger] groups[k][i] as int)
}

/// Every member of a group reaches the group's first node.
pub open spec fn groups_rooted(g: Seq<Seq<usize>>, n: int, groups: Seq<Seq<usize>>) -> bool {
    forall|k: int, i: int|
        0 <= k < groups.len() && 0 <= i < groups[k].len() ==> graph_reaches(g, n, #[trigger] groups[k][i] as int, groups[k][0] as int)
}

/// The first node of each group reaches every member of it.
pub open spec fn roots_reach(g: Seq<Seq<usize>>, n: int, groups: Seq<Seq<usize>>) -> bool {
    forall|k: int, i: int|
        0 <= k < groups.len() && 0 <= i < groups[k].len() ==> graph_reaches(g, n, groups[k][0] as int, #[trigger] groups[k][i] as int)
}

/// Every group is strongly connected: any two of its members reach each other.
pub open spec fn groups_strongly_connected(g: Seq<Seq<usize>>, n: int, groups: Seq<Seq<usize>>) -> bool {
    forall|k: int, i: int, j: int|
        0 <= k < groups.len() && 0 <= i < groups[k].len() && 0 <= j < groups[k].len() ==> graph_reaches(
            g,
            n,
            #[trigger] groups[k][i] as int,
            #[trigger] groups[k][j] as int,
        )
}

proof fn lemma_add_group(
    b: Seq<Seq<usize>>,
    v: int,
    seen0: Seq<bool>,
    seen1: Seq<bool>,
    groups: Seq<Seq<usize>>,
    added: Seq<usize>,
)
    requires
        b.len() <= usize::MAX,
        targets_ok(b, b.len() as int),
        partial_ok(b, b.len() as int, seen0, groups),
        dfs_post(b, v, seen0, seen1, Seq::empty(), added),
    ensures
        partial_ok(b, b.len() as int, seen1, groups.push(added.reverse())),
{
    let n = b.len() as int;
    let ng = groups.push(added.reverse());
    let r = added.reverse();
    assert(added.subrange(0, 0) =~= Seq::<usize>::empty());
    assert(added.subrange(0, added.len() as int) =~= added);
    assert(ng.drop_last() =~= groups);
    assert(flatten(ng) == flatten(groups) + r);
    assert forall|x: usize| r.contains(x) <==> added.contains(x) by {
        if r.contains(x) {
            let i = choose|i: int| 0 <= i < r.len() && r[i] == x;
            assert(added[added.len() - 1 - i] == x);
        }
        if added.contains(x) {
            let i = choose|i: int| 0 <= i < added.len() && added[i] == x;
            assert(r[added.len() - 1 - i] == x);
        }
    }
    assert(r.no_duplicates()) by {
        assert forall|i: int, j: int| 0 <= i < r.len() && 0 <= j < r.len() && i != j implies r[i] != r[j] by {
            assert(r[i] == added[added.len() - 1 - i]);
            assert(r[j] == added[added.len() - 1 - j]);
        }
    }
    let f = flatten(groups);
    assert forall|i: int, j: int| 0 <= i < f.len() && 0 <= j < r.len() implies f[i] != r[j] by {
        assert(f.contains(f[i]));
        lemma_flatten_contains(groups, f[i]);
        let k = choose|k: int| 0 <= k < groups.len() && #[trigger] groups[k].contains(f[i]);
        let ii = choose|ii: int| 0 <= ii < groups[k].len() && groups[k][ii] == f[i];
        assert(f[i] < n);
        assert(seen0[f[i] as int]);
        assert(r.contains(r[j]));
        assert(added.contains(r[j]));
    }
    vstd::seq_lib::lemma_no_dup_in_concat(f, r);
    assert forall|u: int| 0 <= u < n implies (#[trigger] seen1[u] <==> flatten(ng).contains(u as usize)) by {
        assert(seen0[u] ==> seen1[u]);
        assert(seen1[u] && !seen0[u] <==> added.contains(u as usize));
        if f.contains(u as usize) {
            let i = choose|i: int| 0 <= i < f.len() && f[i] == u as usize;
            assert(flatten(ng)[i] == u as usize);
        }
        if r.contains(u as usize) {
            let i = choose|i: int| 0 <= i < r.len() && r[i] == u as usize;
            assert(flatten(ng)[f.len() + i] == u as usize);
        }
        if flatten(ng).contains(u as usize) {
            let i = choose|i: int| 0 <= i < flatten(ng).len() && flatten(ng)[i] == u as usize;
            if i < f.len() {
                assert(f[i] == u as usize);
            } else {
                assert(r[i - f.len()] == u as usize);
            }
        }
    }
    assert forall|k: int, i: int| 0 <= k < ng.len() && 0 <= i < ng[k].len() implies #[trigger] ng[k][i] < n by {
        if k < groups.len() {
            assert(ng[k] == groups[k]);
        } else {
            assert(r[i] == added[added.len() - 1 - i]);
        }
    }
    assert forall|k: int| 0 <= k < ng.len() implies #[trigger] ng[k].len() > 0 by {
        if k < groups.len() {
            assert(ng[k] == groups[k]);
        }
    }
    assert forall|k: int, i: int| 0 <= k < ng.len() && 0 <= i < ng[k].len() implies graph_reaches(
        b,
        n,
        ng[k][0] as int,
        #[trigger] ng[k][i] as int,
    ) by {
        if k < groups.len() {
            assert(ng[k] == groups[k]);
        } else {
            let a2 = added.subrange(Seq::<usize>::empty().len() as int, added.len() as int);
            assert(a2 == added);
            assert(r[0] == added[added.len() - 1]);
            assert(r[i] == a2[added.len() - 1 - i]);
        }
    }
    assert forall|k: int, x: int, y: int|
        #![trigger in_group(ng, k, x), has_edge(b, x, y)]
        in_group(ng, k, x) && 0 <= x < n && 0 <= y < n && has_edge(b, x, y) implies exists|k2: int|
            0 <= k2 <= k && #[trigger] in_group(ng, k2, y) by {
        if k < groups.len() {
            assert(ng[k] == groups[k]);
            assert(in_group(groups, k, x));
            let k2 = choose|k2: int| 0 <= k2 <= k && #[trigger] in_group(groups, k2, y);
            assert(ng[k2] == groups[k2]);
            assert(in_group(ng, k2, y));
        } else {
            assert(r.contains(x as usize));
            assert(added.contains(x as usize));
            let kk = choose|kk: int| 0 <= kk < added.len() && added[kk] == x as usize;
            let j = choose|j: int| 0 <= j < b[x].len() && #[trigger] b[x][j] == y;
            let a2 = added.subrange(Seq::<usize>::empty().len() as int, added.len() as int);
            assert(a2 == added);
            assert(a2[kk] == x as usize);
            assert(0 <= j < b[a2[kk] as int].len());
            assert(seen1[b[a2[kk] as int][j] as int]);
            assert(seen1[y]);
            assert(flatten(ng).contains(y as usize));
            lemma_flatten_contains(ng, y as usize);
            let k2 = choose|k2: int| 0 <= k2 < ng.len() && #[trigger] ng[k2].contains(y as usize);
            assert(in_group(ng, k2, y));
        }
    }
}

/// A directed graph on `n` nodes, with its edges also kept reversed.
pub struct StronglyConnectedComponent {
    n: usize,
    pub graph: Vec<Vec<usize>>,
    bwd_graph: Vec<Vec<usize>>,
}

impl StronglyConnectedComponent {
    /// The number of nodes.
    pub closed spec fn size(&self) -> nat {
        self.n as nat
    }

    /// The edges, as adjacency lists.
    pub closed spec fn edges(&self) -> Seq<Seq<usize>> {
        adj_lists(self.graph@)
    }

    /// The internal invariant: the reversed lists hold exactly the reversed edges.
    pub closed spec fn well_formed(&self) -> bool {
        let g = adj_lists(self.graph@);
        let b = adj_lists(self.bwd_graph@);
        let n = self.n as int;
        &&& targets_ok(g, n)
        &&& targets_ok(b, n)
        &&& forall|u: int, v: int| 0 <= u < n && 0 <= v < n ==> (#[trigger] has_edge(b, u, v) <==> has_edge(g, v, u))
    }

    /// A graph of `n` nodes without edges.
    pub fn new(n: usize) -> (r: StronglyConnectedComponent)
        ensures
            r.well_formed(),
            r.size() == n,
            r.edges() == Seq::new(n as nat, |i: int| Seq::<usize>::empty()),
    {
        let mut graph: Vec<Vec<usize>> = Vec::new();
        let mut bwd_graph: Vec<Vec<usize>> = Vec::new();
        let mut i: usize = 0;
        while i < n
            invariant
                i <= n,
                graph.len() == i,
                bwd_graph.len() == i,
                adj_lists(graph@) == Seq::new(i as nat, |j: int| Seq::<usize>::empty()),
                adj_lists(bwd_graph@) == Seq::new(i as nat, |j: int| Seq::<usize>::empty()),
            decreases n - i,
        {
            let e1: Vec<usize> = Vec::new();
            let e2: Vec<usize> = Vec::new();
            let ghost g0 = graph@;
            let ghost b0 = bwd_graph@;
            graph.push(e1);
            bwd_graph.push(e2);
            assert forall|j: int| 0 <= j < i + 1 implies #[trigger] adj_lists(graph@)[j] == Seq::<usize>::empty()
                && adj_lists(bwd_graph@)[j] == Seq::<usize>::empty() by {
                if j < i {
                    assert(graph@[j] == g0[j]);
                    assert(bwd_graph@[j] == b0[j]);
                    assert(adj_lists(g0)[j] == g0[j]@);
                    assert(adj_lists(b0)[j] == b0[j]@);
                }
            }
            assert(adj_lists(graph@) =~= Seq::new((i + 1) as nat, |j: int| Seq::<usize>::empty()));
            assert(adj_lists(bwd_graph@) =~= Seq::new((i + 1) as nat, |j: int| Seq::<usize>::empty()));
            i += 1;
        }
        StronglyConnectedComponent { n, graph, bwd_graph }
    }

    /// Depth-first search from the unmarked node `v` (reached from `pre`) over `graph`:
    /// mark every node it reaches and append each one after its own search is done.
    fn fwd_dfs(
        graph: &Vec<Vec<usize>>,
        v: usize,
        pre: Option<usize>,
        seen: &mut Vec<bool>,
        order: &mut Vec<usize>,
    )
        requires
            targets_ok(adj_lists(graph@), graph.len() as int),
            old(seen).len() == graph.len(),
            v < graph.len(),
            !old(seen)@[v as int],
            pre matches Some(p) ==> p < graph.len() && old(seen)@[p as int],
            black_closed(adj_lists(graph@), old(order)@, old(seen)@),
            forall|k: int| 0 <= k < old(order)@.len() ==> #[trigger] old(order)@[k] < graph.len() && old(seen)@[old(order)@[k] as int],
            grays_reach(adj_lists(graph@), graph.len() as int, old(order)@, old(seen)@, v as int),
            order_ok(adj_lists(graph@), graph.len() as int, old(order)@),
        ensures
            dfs_post(adj_lists(graph@), v as int, old(seen)@, final(seen)@, old(order)@, final(order)@),
            black_closed(adj_lists(graph@), final(order)@, final(seen)@),
            order_ok(adj_lists(graph@), graph.len() as int, final(order)@),
        decreases count_false(old(seen)@),
    {
        let ghost g = adj_lists(graph@);
        let ghost n = graph.len() as int;
        proof {
            lemma_count_false_mark(seen@, v as int);
        }
        seen.set(v, true);
        let len = graph[v].len();
        assert(g[v as int].len() == len);
        let mut i: usize = 0;
        proof {
            let added = order@.subrange(old(order)@.len() as int, order@.len() as int);
            assert(added =~= Seq::<usize>::empty());
            assert(order@.subrange(0, old(order)@.len() as int) =~= old(order)@);
            assert forall|u: int| 0 <= u < n && #[trigger] seen@[u] && !order@.contains(u as usize) implies graph_reaches(
                g,
                n,
                u,
                v as int,
            ) by {
                if u == v {
                    lemma_reach_self(g, n, v as int);
                } else {
                    assert(old(seen)@[u]);
                }
            }
            assert forall|k: int, j: int| 0 <= k < order@.len() && 0 <= j < g[order@[k] as int].len() implies seen@[#[trigger] g[order@[k] as int][j] as int] by {
                assert(old(seen)@[g[old(order)@[k] as int][j] as int]);
                assert(g[order@[k] as int][j] < n);
            }
            assert forall|k: int| 0 <= k < order@.len() implies #[trigger] order@[k] < n && seen@[order@[k] as int] by {
                assert(old(order)@[k] < n && old(seen)@[old(order)@[k] as int]);
            }
        }
        while i < len
            invariant
                g == adj_lists(graph@),
                n == graph.len(),
                targets_ok(g, n),
                len == g[v as int].len(),
                0 <= i <= len,
                v < n,
                old(seen)@.len() == n,
                dfs_progress(g, v as int, old(seen)@, seen@, old(order)@, order@),
                count_false(seen@) < count_false(old(seen)@),
                pre matches Some(p) ==> p < n && seen@[p as int],
                forall|j: int| 0 <= j < i ==> seen@[(#[trigger] g[v as int][j]) as int],
                black_closed(g, order@, seen@),
                forall|k: int| 0 <= k < order@.len() ==> #[trigger] order@[k] < n && seen@[order@[k] as int],
                grays_reach(g, n, order@, seen@, v as int),
                order_ok(g, n, order@),
            decreases len - i,
        {
            let nv = graph[v][i];
            assert(nv == g[v as int][i as int]);
            let skip = match pre {
                Some(p) => nv == p,
                None => false,
            };
            if !skip && !seen[nv] {
                let ghost s1 = seen@;
                let ghost o1 = order@;
                proof {
                    assert(g[v as int][i as int] == nv);
                    assert(has_edge(g, v as int, nv as int));
                    lemma_reach_edge(g, n, v as int, nv as int);
                    assert forall|u: int| 0 <= u < n && #[trigger] s1[u] && !o1.contains(u as usize) implies graph_reaches(
                        g,
                        n,
                        u,
                        nv as int,
                    ) by {
                        lemma_reach_trans(g, n, u, v as int, nv as int);
                    }
                }
                Self::fwd_dfs(graph, nv, Some(v), seen, order);
                proof {
                    let a2 = order@.subrange(o1.len() as int, order@.len() as int);
                    assert(order@ =~= o1 + a2) by {
                        assert(order@.subrange(0, o1.len() as int) == o1);
                    }
                    assert forall|k: int| 0 <= k < order@.len() implies #[trigger] order@[k] < n && seen@[order@[k] as int] by {
                        if k < o1.len() {
                            assert(order@[k] == o1[k]);
                            assert(o1[k] < n && s1[o1[k] as int]);
                        } else {
                            assert(order@[k] == a2[k - o1.len()]);
                            assert(a2.contains(a2[k - o1.len()]));
                            assert(a2[k - o1.len()] < n);
                        }
                    }
                    assert forall|u: int| 0 <= u < n && #[trigger] seen@[u] && !order@.contains(u as usize) implies graph_reaches(
                        g,
                        n,
                        u,
                        v as int,
                    ) by {
                        if s1[u] {
                            if o1.contains(u as usize) {
                                let t = choose|t: int| 0 <= t < o1.len() && o1[t] == u as usize;
                                assert(order@[t] == u as usize);
                            }
                        } else {
                            assert(a2.contains(u as usize));
                            let t = choose|t: int| 0 <= t < a2.len() && a2[t] == u as usize;
                            assert(order@[o1.len() + t] == u as usize);
                        }
                    }
                    assert(g[v as int][i as int] == nv);
                    assert(has_edge(g, v as int, nv as int));
                    lemma_dfs_nested(g, v as int, nv as int, old(seen)@, s1, seen@, old(order)@, o1, order@);
                    assert forall|j: int| 0 <= j < i + 1 implies seen@[(#[trigger] g[v as int][j]) as int] by {
                        if j < i {
                            assert(s1[g[v as int][j] as int]);
                            assert(g[v as int][j] < n);
                        }
                    }
                    assert(count_false(seen@) <= count_false(s1)) by {
                        lemma_count_false_mono(s1, seen@);
                    }
                }
            }
            i += 1;
        }
        let ghost o2 = order@;
        order.push(v);
        proof {
            assert(black_closed(g, order@, seen@)) by {
                assert forall|k: int, j: int| 0 <= k < order@.len() && 0 <= j < g[order@[k] as int].len() implies seen@[#[trigger] g[order@[k] as int][j] as int] by {
                    if k < o2.len() {
                        assert(order@[k] == o2[k]);
                    } else {
                        assert(order@[k] == v);
                        assert(seen@[g[v as int][j] as int]);
                    }
                }
            }
            lemma_finish_step(g, n, o2, seen@, v as int);
            let a_old = o2.subrange(old(order)@.len() as int, o2.len() as int);
            let a = order@.subrange(old(order)@.len() as int, order@.len() as int);
            assert(a =~= a_old.push(v));
            assert(order@.subrange(0, old(order)@.len() as int) =~= o2.subrange(0, old(order)@.len() as int));
            assert forall|k: int, j: int| 0 <= k < a.len() && 0 <= j < g[a[k] as int].len() implies seen@[#[trigger] g[a[k] as int][j] as int] by {
                if k < a_old.len() {
                    assert(a[k] == a_old[k]);
                }
            }
            assert forall|k: int| 0 <= k < a.len() implies graph_reaches(g, n, v as int, #[trigger] a[k] as int) by {
                if k < a_old.len() {
                    assert(a[k] == a_old[k]);
                } else {
                    lemma_reach_self(g, n, v as int);
                }
            }
            assert forall|u: int| 0 <= u < n implies (#[trigger] seen@[u] && !old(seen)@[u] <==> a.contains(u as usize)) by {
                if a_old.contains(u as usize) {
                    let k = choose|k: int| 0 <= k < a_old.len() && a_old[k] == u as usize;
                    assert(a[k] == u as usize);
                }
                if u == v {
                    assert(a[a_old.len() as int] == v);
                }
                if a.contains(u as usize) {
                    let k = choose|k: int| 0 <= k < a.len() && a[k] == u as usize;
                    if k < a_old.len() {
                        assert(a_old[k] == u as usize);
                    }
                }
            }
            assert(a.no_duplicates()) by {
                assert forall|x: int, y: int| 0 <= x < a.len() && 0 <= y < a.len() && x != y implies a[x] != a[y] by {
                    if x < a_old.len() && y < a_old.len() {
                    } else if x < a_old.len() {
                        assert(a_old.contains(a[x]));
                    } else if y < a_old.len() {
                        assert(a_old.contains(a[y]));
                    }
                }
            }
        }
    }

    /// Depth-first search from the unmarked node `v` (reached from `pre`) over `graph`:
    /// mark every node it reaches and append each one after its own search is done.
    fn bwd_dfs(
        graph: &Vec<Vec<usize>>,
        v: usize,
        pre: Option<usize>,
        seen: &mut Vec<bool>,
        grp: &mut Vec<usize>,
    )
        requires
            targets_ok(adj_lists(graph@), graph.len() as int),
            old(seen).len() == graph.len(),
            v < graph.len(),
            !old(seen)@[v as int],
            pre matches Some(p) ==> p < graph.len() && old(seen)@[p as int],
        ensures
            dfs_post(adj_lists(graph@), v as int, old(seen)@, final(seen)@, old(grp)@, final(grp)@),
        decreases count_false(old(seen)@),
    {
        let ghost g = adj_lists(graph@);
        let ghost n = graph.len() as int;
        proof {
            lemma_count_false_mark(seen@, v as int);
        }
        seen.set(v, true);
        let len = graph[v].len();
        assert(g[v as int].len() == len);
        let mut i: usize = 0;
        proof {
            let added = grp@.subrange(old(grp)@.len() as int, grp@.len() as int);
            assert(added =~= Seq::<usize>::empty());
            assert(grp@.subrange(0, old(grp)@.len() as int) =~= old(grp)@);
        }
        while i < len
            invariant
                g == adj_lists(graph@),
                n == graph.len(),
                targets_ok(g, n),
                len == g[v as int].len(),
                0 <= i <= len,
                v < n,
                old(seen)@.len() == n,
                dfs_progress(g, v as int, old(seen)@, seen@, old(grp)@, grp@),
                count_false(seen@) < count_false(old(seen)@),
                pre matches Some(p) ==> p < n && seen@[p as int],
                forall|j: int| 0 <= j < i ==> seen@[(#[trigger] g[v as int][j]) as int],
            decreases len - i,
        {
            let nv = graph[v][i];
            assert(nv == g[v as int][i as int]);
            let skip = match pre {
                Some(p) => nv == p,
                None => false,
            };
            if !skip && !seen[nv] {
                let ghost s1 = seen@;
                let ghost o1 = grp@;
                Self::bwd_dfs(graph, nv, Some(v), seen, grp);
                proof {
                    assert(g[v as int][i as int] == nv);
                    assert(has_edge(g, v as int, nv as int));
                    lemma_dfs_nested(g, v as int, nv as int, old(seen)@, s1, seen@, old(grp)@, o1, grp@);
                    assert forall|j: int| 0 <= j < i + 1 implies seen@[(#[trigger] g[v as int][j]) as int] by {
                        if j < i {
                            assert(s1[g[v as int][j] as int]);
                            assert(g[v as int][j] < n);
                        }
                    }
                    assert(count_false(seen@) <= count_false(s1)) by {
                        lemma_count_false_mono(s1, seen@);
                    }
                }
            }
            i += 1;
        }
        let ghost o2 = grp@;
        grp.push(v);
        proof {
            let a_old = o2.subrange(old(grp)@.len() as int, o2.len() as int);
            let a = grp@.subrange(old(grp)@.len() as int, grp@.len() as int);
            assert(a =~= a_old.push(v));
            assert(grp@.subrange(0, old(grp)@.len() as int) =~= o2.subrange(0, old(grp)@.len() as int));
            assert forall|k: int, j: int| 0 <= k < a.len() && 0 <= j < g[a[k] as int].len() implies seen@[#[trigger] g[a[k] as int][j] as int] by {
                if k < a_old.len() {
                    assert(a[k] == a_old[k]);
                }
            }
            assert forall|k: int| 0 <= k < a.len() implies graph_reaches(g, n, v as int, #[trigger] a[k] as int) by {
                if k < a_old.len() {
                    assert(a[k] == a_old[k]);
                } else {
                    lemma_reach_self(g, n, v as int);
                }
            }
            assert forall|u: int| 0 <= u < n implies (#[trigger] seen@[u] && !old(seen)@[u] <==> a.contains(u as usize)) by {
                if a_old.contains(u as usize) {
                    let k = choose|k: int| 0 <= k < a_old.len() && a_old[k] == u as usize;
                    assert(a[k] == u as usize);
                }
                if u == v {
                    assert(a[a_old.len() as int] == v);
                }
                if a.contains(u as usize) {
                    let k = choose|k: int| 0 <= k < a.len() && a[k] == u as usize;
                    if k < a_old.len() {
                        assert(a_old[k] == u as usize);
                    }
                }
            }
            assert(a.no_duplicates()) by {
                assert forall|x: int, y: int| 0 <= x < a.len() && 0 <= y < a.len() && x != y implies a[x] != a[y] by {
                    if x < a_old.len() && y < a_old.len() {
                    } else if x < a_old.len() {
                        assert(a_old.contains(a[x]));
                    } else if y < a_old.len() {
                        assert(a_old.contains(a[y]));
                    }
                }
            }
        }
    }

    /// Split the nodes into groups: a forward pass orders the nodes by the end of their
    /// search, then a backward pass in reverse of that order collects each group.
    #[verifier::spinoff_prover]
    pub fn decompose(&mut self) -> (scc: Vec<Vec<usize>>)
        requires
            old(self).well_formed(),
            old(self).size() <= usize::MAX,
        ensures
            *final(self) == *old(self),
            decomposition_ok(old(self).edges(), old(self).size() as int, group_seqs(scc@)),
            groups_rooted(old(self).edges(), old(self).size() as int, group_seqs(scc@)),
            groups_strongly_connected(old(self).edges(), old(self).size() as int, group_seqs(scc@)),
    {
        let n = self.n;
        let ghost g = adj_lists(self.graph@);
        let ghost b = adj_lists(self.bwd_graph@);
        let mut scc = Vec::<Vec<usize>>::new();
        let mut fwd_seen: Vec<bool> = Vec::new();
        let mut j: usize = 0;
        while j < n
            invariant
                j <= n,
                fwd_seen@ == Seq::new(j as nat, |x: int| false),
            decreases n - j,
        {
            fwd_seen.push(false);
            j += 1;
        }
        let mut order = Vec::<usize>::new();
        for i in 0..n
            invariant
                n == self.n,
                g == adj_lists(self.graph@),
                self.well_formed(),
                fwd_seen.len() == n,
                forall|u: int| 0 <= u < i ==> #[trigger] fwd_seen@[u],
                forall|u: int| 0 <= u < n ==> (#[trigger] fwd_seen@[u] <==> order@.contains(u as usize)),
                forall|k: int| 0 <= k < order.len() ==> #[trigger] order@[k] < n,
                black_closed(g, order@, fwd_seen@),
                order_ok(g, n as int, order@),
                order@.no_duplicates(),
        {
            if !fwd_seen[i] {
                let ghost s0 = fwd_seen@;
                let ghost o0 = order@;
                proof {
                    assert forall|k: int| 0 <= k < o0.len() implies #[trigger] o0[k] < n && s0[o0[k] as int] by {
                        assert(o0.contains(o0[k]));
                    }
                    assert forall|u: int| 0 <= u < n && #[trigger] s0[u] && !o0.contains(u as usize) implies graph_reaches(
                        g,
                        n as int,
                        u,
                        i as int,
                    ) by {
                    }
                }
                Self::fwd_dfs(&self.graph, i, None, &mut fwd_seen, &mut order);
                proof {
                    let added = order@.subrange(o0.len() as int, order@.len() as int);
                    assert(order@ =~= o0 + added) by {
                        assert(order@.subrange(0, o0.len() as int) == o0);
                    }
                    assert forall|x: int, y: int| 0 <= x < o0.len() && 0 <= y < added.len() implies o0[x] != added[y] by {
                        assert(o0.contains(o0[x]));
                        assert(s0[o0[x] as int]);
                        assert(added.contains(added[y]));
                        assert(added[y] < n);
                    }
                    vstd::seq_lib::lemma_no_dup_in_concat(o0, added);
                    assert forall|u: int| 0 <= u < n implies (#[trigger] fwd_seen@[u] <==> order@.contains(u as usize)) by {
                        assert(s0[u] ==> fwd_seen@[u]);
                        assert(fwd_seen@[u] && !s0[u] <==> added.contains(u as usize));
                        assert(s0[u] <==> o0.contains(u as usize));
                        if o0.contains(u as usize) {
                            let k = choose|k: int| 0 <= k < o0.len() && o0[k] == u as usize;
                            assert(order@[k] == u as usize);
                        }
                        if added.contains(u as usize) {
                            let k = choose|k: int| 0 <= k < added.len() && added[k] == u as usize;
                            assert(order@[o0.len() + k] == u as usize);
                        }
                        if order@.contains(u as usize) {
                            let k = choose|k: int| 0 <= k < order@.len() && order@[k] == u as usize;
                            if k < o0.len() {
                                assert(o0[k] == u as usize);
                            } else {
                                assert(added[k - o0.len()] == u as usize);
                            }
                        }
                    }
                    assert forall|k: int| 0 <= k < order.len() implies #[trigger] order@[k] < n by {
                        if k >= o0.len() {
                            assert(order@[k] == added[k - o0.len()]);
                        }
                    }
                    assert forall|u: int| 0 <= u < i + 1 implies #[trigger] fwd_seen@[u] by {
                        assert(s0[u] ==> fwd_seen@[u]);
                    }
                }
            }
        }
        let ghost o1 = order@;
        reverse_vec(&mut order);
        proof {
            assert forall|u: int| 0 <= u < n implies #[trigger] order@.contains(u as usize) by {
                assert(fwd_seen@[u]);
                assert(o1.contains(u as usize));
                let k = choose|k: int| 0 <= k < o1.len() && o1[k] == u as usize;
                assert(order@[o1.len() - 1 - k] == u as usize);
            }
            assert forall|k: int| 0 <= k < order.len() implies #[trigger] order@[k] < n by {
                assert(order@[k] == o1[o1.len() - 1 - k]);
            }
            assert forall|u: int| 0 <= u < n implies #[trigger] o1.contains(u as usize) by {
                assert(fwd_seen@[u]);
            }
        }
        let mut bwd_seen: Vec<bool> = Vec::new();
        let mut j: usize = 0;
        while j < n
            invariant
                j <= n,
                bwd_seen@ == Seq::new(j as nat, |x: int| false),
            decreases n - j,
        {
            bwd_seen.push(false);
            j += 1;
        }
        proof {
            assert(flatten(group_seqs(scc@)) =~= Seq::<usize>::empty());
        }
        let len = order.len();
        let mut k: usize = 0;
        while k < len
            invariant
                n == self.n,
                g == adj_lists(self.graph@),
                b == adj_lists(self.bwd_graph@),
                self.well_formed(),
                *self == *old(self),
                len == order.len(),
                k <= len,
                forall|x: int| 0 <= x < order.len() ==> #[trigger] order@[x] < n,
                forall|u: int| 0 <= u < n ==> #[trigger] order@.contains(u as usize),
                partial_ok(b, n as int, bwd_seen@, group_seqs(scc@)),
                forall|x: int| 0 <= x < k ==> bwd_seen@[#[trigger] order@[x] as int],
                order@ == o1.reverse(),
                order_ok(g, n as int, o1),
                o1.no_duplicates(),
                forall|u: int| 0 <= u < n ==> #[trigger] o1.contains(u as usize),
                forall|t: int| 0 <= t < o1.len() ==> #[trigger] o1[t] < n,
                roots_reach(g, n as int, group_seqs(scc@)),
            decreases len - k,
        {
            let i = order[k];
            if !bwd_seen[i] {
                let mut grp = Vec::<usize>::new();
                let ghost s0 = bwd_seen@;
                let ghost groups0 = group_seqs(scc@);
                Self::bwd_dfs(&self.bwd_graph, i, None, &mut bwd_seen, &mut grp);
                proof {
                    lemma_add_group(b, i as int, s0, bwd_seen@, group_seqs(scc@), grp@);
                    assert forall|x: int| 0 <= x < k implies bwd_seen@[#[trigger] order@[x] as int] by {
                        assert(s0[order@[x] as int]);
                    }
                    let added = grp@.subrange(0, grp@.len() as int);
                    assert(added =~= grp@);
                    assert forall|t: int| 0 <= t < grp@.len() implies graph_reaches(g, n as int, i as int, #[trigger] grp@[t] as int) by {
                        let x = grp@[t] as int;
                        assert(added.contains(grp@[t]));
                        assert(grp@[t] < n);
                        assert(!s0[x]);
                        assert(graph_reaches(b, n as int, i as int, added[t] as int));
                        lemma_reach_reverse(g, b, n as int, i as int, x);
                        assert forall|t2: int| 0 <= t2 < k implies s0[#[trigger] o1.reverse()[t2] as int] by {
                            assert(s0[order@[t2] as int]);
                        }
                        lemma_root_reaches(g, b, n as int, o1, k as int, s0, groups0, x);
                    }
                }
                let ghost gr = grp@;
                reverse_vec(&mut grp);
                let ghost before = scc@;
                scc.push(grp);
                proof {
                    assert(group_seqs(scc@) =~= group_seqs(before).push(gr.reverse()));
                    let gs = group_seqs(scc@);
                    let last = gs.len() - 1;
                    assert forall|kk: int, t: int| 0 <= kk < gs.len() && 0 <= t < gs[kk].len() implies graph_reaches(
                        g,
                        n as int,
                        gs[kk][0] as int,
                        #[trigger] gs[kk][t] as int,
                    ) by {
                        if kk < last {
                            assert(gs[kk] == groups0[kk]);
                        } else {
                            assert(gs[kk] == gr.reverse());
                            assert(gs[kk][0] == gr[gr.len() - 1]);
                            assert(gr[gr.len() - 1] == i);
                            assert(gs[kk][t] == gr[gr.len() - 1 - t]);
                        }
                    }
                }
            }
            proof {
                assert(bwd_seen@[order@[k as int] as int]) by {
                    assert(order@[k as int] < n);
                    assert(flatten(group_seqs(scc@)).contains(i) || bwd_seen@[i as int]);
                }
            }
            k += 1;
        }
        proof {
            let gs = group_seqs(scc@);
            assert forall|u: int| 0 <= u < n implies #[trigger] flatten(gs).contains(u as usize) by {
                assert(order@.contains(u as usize));
                let x = choose|x: int| 0 <= x < order@.len() && order@[x] == u as usize;
                assert(bwd_seen@[order@[x] as int]);
            }
            assert forall|kk: int, x: int, y: int|
                #![trigger in_group(gs, kk, x), has_edge(g, y, x)]
                in_group(gs, kk, x) && 0 <= x < n && 0 <= y < n && has_edge(g, y, x) implies exists|k2: int|
                    0 <= k2 <= kk && #[trigger] in_group(gs, k2, y) by {
                assert(has_edge(b, x, y));
            }
            assert forall|kk: int, i: int| 0 <= kk < gs.len() && 0 <= i < gs[kk].len() implies graph_reaches(
                g,
                n as int,
                #[trigger] gs[kk][i] as int,
                gs[kk][0] as int,
            ) by {
                assert(graph_reaches(b, n as int, gs[kk][0] as int, gs[kk][i] as int));
                lemma_reach_reverse(g, b, n as int, gs[kk][0] as int, gs[kk][i] as int);
            }
            assert forall|kk: int, i: int, j: int| 0 <= kk < gs.len() && 0 <= i < gs[kk].len() && 0 <= j < gs[kk].len() implies graph_reaches(
                g,
                n as int,
                #[trigger] gs[kk][i] as int,
                #[trigger] gs[kk][j] as int,
            ) by {
                assert(graph_reaches(g, n as int, gs[kk][i] as int, gs[kk][0] as int));
                assert(graph_reaches(g, n as int, gs[kk][0] as int, gs[kk][j] as int));
                lemma_reach_trans(g, n as int, gs[kk][i] as int, gs[kk][0] as int, gs[kk][j] as int);
            }
        }
        scc
    }

    /// Add the edge `from -> into`.
    pub fn add(&mut self, from: usize, into: usize)
        requires
            old(self).well_formed(),
            from < old(self).size(),
            into < old(self).size(),
        ensures
            final(self).well_formed(),
            final(self).size() == old(self).size(),
            final(self).edges() == old(self).edges().update(
                from as int,
                old(self).edges()[from as int].push(into),
            ),
    {
        let ghost g0 = adj_lists(self.graph@);
        let ghost b0 = adj_lists(self.bwd_graph@);
        self.graph[from].push(into);
        self.bwd_graph[into].push(from);
        proof {
            let g1 = adj_lists(self.graph@);
            let b1 = adj_lists(self.bwd_graph@);
            let n = self.n as int;
            assert(g1 =~= g0.update(from as int, g0[from as int].push(into)));
            assert(b1 =~= b0.update(into as int, b0[into as int].push(from)));
            assert forall|u: int, i: int| 0 <= u < n && 0 <= i < g1[u].len() implies #[trigger] g1[u][i] < n by {
                if u != from || i < g0[u].len() {
                    assert(g1[u][i] == g0[u][i]);
                }
            }
            assert forall|u: int, i: int| 0 <= u < n && 0 <= i < b1[u].len() implies #[trigger] b1[u][i] < n by {
                if u != into || i < b0[u].len() {
                    assert(b1[u][i] == b0[u][i]);
                }
            }
            assert forall|u: int, v: int| 0 <= u < n && 0 <= v < n implies (#[trigger] has_edge(b1, u, v) <==> has_edge(
                g1,
                v,
                u,
            )) by {
                if has_edge(b1, u, v) {
                    let j = choose|j: int| 0 <= j < b1[u].len() && #[trigger] b1[u][j] == v;
                    if u == into && j == b0[u].len() {
                        assert(g1[v][g0[v].len() as int] == u);
                    } else {
                        assert(b0[u][j] == v);
                        assert(has_edge(b0, u, v));
                        let k = choose|k: int| 0 <= k < g0[v].len() && #[trigger] g0[v][k] == u;
                        assert(g1[v][k] == u);
                    }
                }
                if has_edge(g1, v, u) {
                    let j = choose|j: int| 0 <= j < g1[v].len() && #[trigger] g1[v][j] == u;
                    if v == from && j == g0[v].len() {
                        assert(b1[u][b0[u].len() as int] == v);
                    } else {
                        assert(g0[v][j] == u);
                        assert(has_edge(g0, v, u));
                        assert(has_edge(b0, u, v));
                        let k = choose|k: int| 0 <= k < b0[u].len() && #[trigger] b0[u][k] == v;
                        assert(b1[u][k] == v);
                    }
                }
            }
        }
    }
}

/// `p` is a path along the edges of `g` over the nodes `0..n`.
pub open spec fn is_path(g: Seq<Seq<usize>>, n: int, p: Seq<int>) -> bool {
    &&& p.len() >= 1
    &&& forall|i: int| 0 <= i < p.len() ==> 0 <= #[trigger] p[i] < n
    &&& forall|i: int| 0 <= i < p.len() - 1 ==> #[trigger] has_edge(g, p[i], p[i + 1])
}

/// `v` can be reached from `u` along the edges of `g`.
pub open spec fn graph_reaches(g: Seq<Seq<usize>>, n: int, u: int, v: int) -> bool {
    exists|p: Seq<int>| #[trigger] is_path(g, n, p) && p[0] == u && p.last() == v
}

/// No node is in two groups.
proof fn lemma_group_unique(groups: Seq<Seq<usize>>, u: usize, k1: int, k2: int)
    requires
        flatten(groups).no_duplicates(),
        0 <= k1 < groups.len(),
        0 <= k2 < groups.len(),
        groups[k1].contains(u),
        groups[k2].contains(u),
    ensures
        k1 == k2,
    decreases groups.len(),
{
    let init = groups.drop_last();
    let fi = flatten(init);
    let l = groups.last();
    let f = flatten(groups);
    assert(f == fi + l);
    let last = groups.len() - 1;
    assert(fi.no_duplicates()) by {
        assert forall|i: int, j: int| 0 <= i < fi.len() && 0 <= j < fi.len() && i != j implies fi[i] != fi[j] by {
            assert(f[i] == fi[i] && f[j] == fi[j]);
        }
    }
    if k1 < last && k2 < last {
        assert(init[k1] == groups[k1] && init[k2] == groups[k2]);
        lemma_group_unique(init, u, k1, k2);
    } else if k1 != k2 {
        let k = if k1 < last { k1 } else { k2 };
        assert(init[k] == groups[k]);
        lemma_flatten_contains(init, u);
        assert(fi.contains(u));
        let i = choose|i: int| 0 <= i < fi.len() && fi[i] == u;
        let j = choose|j: int| 0 <= j < l.len() && l[j] == u;
        assert(f[i] == u && f[fi.len() + j] == u);
    }
}

/// Along a path, the group index never decreases: every edge into a group comes from that
/// group or an earlier one.
proof fn lemma_path_group_order(g: Seq<Seq<usize>>, n: int, groups: Seq<Seq<usize>>, p: Seq<int>, ku: int, kv: int)
    requires
        decomposition_ok(g, n, groups),
        is_path(g, n, p),
        in_group(groups, ku, p[0]),
        in_group(groups, kv, p.last()),
    ensures
        ku <= kv,
    decreases p.len(),
{
    if p.len() == 1 {
        lemma_group_unique(groups, p[0] as usize, ku, kv);
    } else {
        let q = p.drop_last();
        let w = q.last();
        let v = p.last();
        let i = p.len() - 2;
        assert(has_edge(g, p[i], p[i + 1]));
        assert(p[i] == w && p[i + 1] == v);
        assert(0 <= w < n && 0 <= v < n);
        let k2 = choose|k2: int| 0 <= k2 <= kv && #[trigger] in_group(groups, k2, w);
        assert(is_path(g, n, q)) by {
            assert forall|i: int| 0 <= i < q.len() - 1 implies #[trigger] has_edge(g, q[i], q[i + 1]) by {
                assert(has_edge(g, p[i], p[i + 1]));
            }
        }
        lemma_path_group_order(g, n, groups, q, ku, k2);
    }
}

/// In a decomposition, nodes that reach each other are in the same group.
pub proof fn lemma_mutually_reaching_same_group(
    g: Seq<Seq<usize>>,
    n: int,
    groups: Seq<Seq<usize>>,
    u: int,
    v: int,
    ku: int,
    kv: int,
)
    requires
        decomposition_ok(g, n, groups),
        in_group(groups, ku, u),
        in_group(groups, kv, v),
        graph_reaches(g, n, u, v),
        graph_reaches(g, n, v, u),
    ensures
        ku == kv,
{
    let p = choose|p: Seq<int>| #[trigger] is_path(g, n, p) && p[0] == u && p.last() == v;
    let q = choose|p: Seq<int>| #[trigger] is_path(g, n, p) && p[0] == v && p.last() == u;
    lemma_path_group_order(g, n, groups, p, ku, kv);
    lemma_path_group_order(g, n, groups, q, kv, ku);
}

/// In a decomposition into strongly connected groups (what `decompose` returns), two nodes
/// share a group exactly when each reaches the other.
pub proof fn lemma_same_group_iff_mutually_reaching(
    g: Seq<Seq<usize>>,
    n: int,
    groups: Seq<Seq<usize>>,
    u: int,
    v: int,
    ku: int,
    kv: int,
)
    requires
        n <= usize::MAX,
        0 <= u < n,
        0 <= v < n,
        decomposition_ok(g, n, groups),
        groups_strongly_connected(g, n, groups),
        in_group(groups, ku, u),
        in_group(groups, kv, v),
    ensures
        ku == kv <==> graph_reaches(g, n, u, v) && graph_reaches(g, n, v, u),
{
    if graph_reaches(g, n, u, v) && graph_reaches(g, n, v, u) {
        lemma_mutually_reaching_same_group(g, n, groups, u, v, ku, kv);
    }
    if ku == kv {
        let i = choose|i: int| 0 <= i < groups[ku].len() && groups[ku][i] == u as usize;
        let j = choose|j: int| 0 <= j < groups[ku].len() && groups[ku][j] == v as usize;
        assert(graph_reaches(g, n, groups[ku][i] as int, groups[ku][j] as int));
        assert(graph_reaches(g, n, groups[ku][j] as int, groups[ku][i] as int));
    }
}

} // verus!
