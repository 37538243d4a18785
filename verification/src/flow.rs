//! Flow networks on a residual graph: maximum flow by Dinic's method, minimum cut, and
//! minimum-cost flow by successive shortest paths, with lower bounds on edge flows handled
//! through two extra vertices.
use vstd::prelude::*;

verus! {

/// One directed edge of the residual graph; every edge is paired with its reverse edge.
#[derive(Clone, Copy)]
pub struct Edge {
    pub to: usize,
    /// Index of the paired edge in the list of `to`.
    pub rev_idx: usize,
    /// Capacity, with `flow <= cap`.
    pub cap: i64,
    /// Flow along the edge; the paired edge carries its negation.
    pub flow: i64,
    /// Cost per unit of flow; the paired edge carries its negation.
    pub cost: i64,
}

/// The edge at index `i` of vertex `v` is paired correctly and within its capacity.
pub open spec fn pair_ok(g: Seq<Seq<Edge>>, v: int, i: int) -> bool {
    let e = g[v][i];
    let r = g[e.to as int][e.rev_idx as int];
    &&& e.to < g.len()
    &&& e.to != v
    &&& e.rev_idx < g[e.to as int].len()
    &&& r.to == v
    &&& r.rev_idx == i
    &&& r.flow == -e.flow
    &&& r.cost == -e.cost
    &&& 0 <= e.cap
    &&& (e.cap == 0 || r.cap == 0)
    &&& e.flow <= e.cap
    &&& e.cost > i64::MIN
}

/// Every edge of the residual graph is paired correctly and within its capacity.
pub open spec fn graph_ok(g: Seq<Seq<Edge>>) -> bool {
    forall|v: int, i: int| 0 <= v < g.len() && 0 <= i < g[v].len() ==> #[trigger] pair_ok(g, v, i)
}

/// Sum of the flows of a list of edges.
pub open spec fn flow_sum(s: Seq<Edge>) -> int
    decreases s.len(),
{
    if s.len() == 0 {
        0
    } else {
        flow_sum(s.drop_last()) + s.last().flow
    }
}

/// Sum of the capacities of a list of edges.
pub open spec fn cap_sum(s: Seq<Edge>) -> int
    decreases s.len(),
{
    if s.len() == 0 {
        0
    } else {
        cap_sum(s.drop_last()) + s.last().cap
    }
}

/// Net flow out of `v`.
pub open spec fn net(g: Seq<Seq<Edge>>, v: int) -> int {
    flow_sum(g[v])
}

/// Two graphs with the same edges, capacities and costs, flows aside.
pub open spec fn same_shape(g1: Seq<Seq<Edge>>, g2: Seq<Seq<Edge>>) -> bool {
    &&& g1.len() == g2.len()
    &&& forall|v: int| 0 <= v < g1.len() ==> (#[trigger] g1[v]).len() == g2[v].len()
    &&& forall|v: int, i: int|
        #![trigger g1[v][i], g2[v][i]]
        0 <= v < g1.len() && 0 <= i < g1[v].len() ==> g1[v][i].to == g2[v][i].to && g1[v][i].rev_idx
            == g2[v][i].rev_idx && g1[v][i].cap == g2[v][i].cap && g1[v][i].cost == g2[v][i].cost
}

proof fn lemma_flow_sum_update(s: Seq<Edge>, i: int, e: Edge)
    requires
        0 <= i < s.len(),
    ensures
        flow_sum(s.update(i, e)) == flow_sum(s) - s[i].flow + e.flow,
    decreases s.len(),
{
    if i == s.len() - 1 {
        assert(s.update(i, e).drop_last() =~= s.drop_last());
    } else {
        lemma_flow_sum_update(s.drop_last(), i, e);
        assert(s.update(i, e).drop_last() =~= s.drop_last().update(i, e));
    }
}

proof fn lemma_flow_sum_push(s: Seq<Edge>, e: Edge)
    ensures
        flow_sum(s.push(e)) == flow_sum(s) + e.flow,
        cap_sum(s.push(e)) == cap_sum(s) + e.cap,
{
    assert(s.push(e).drop_last() =~= s);
}

proof fn lemma_flow_le_cap(s: Seq<Edge>)
    requires
        forall|i: int| 0 <= i < s.len() ==> (#[trigger] s[i]).flow <= s[i].cap,
    ensures
        flow_sum(s) <= cap_sum(s),
    decreases s.len(),
{
    if s.len() > 0 {
        lemma_flow_le_cap(s.drop_last());
    }
}

proof fn lemma_cap_sum_same(s1: Seq<Edge>, s2: Seq<Edge>)
    requires
        s1.len() == s2.len(),
        forall|i: int| 0 <= i < s1.len() ==> (#[trigger] s1[i]).cap == s2[i].cap,
    ensures
        cap_sum(s1) == cap_sum(s2),
    decreases s1.len(),
{
    if s1.len() > 0 {
        lemma_cap_sum_same(s1.drop_last(), s2.drop_last());
    }
}

/// Sum of `flow * cost` over a list of edges.
pub open spec fn cost_sum(s: Seq<Edge>) -> int
    decreases s.len(),
{
    if s.len() == 0 {
        0
    } else {
        cost_sum(s.drop_last()) + s.last().flow * s.last().cost
    }
}

/// Sum of `flow * cost` over the edges of the first `k` vertices.
pub open spec fn rows_cost(g: Seq<Seq<Edge>>, k: int) -> int
    decreases k,
{
    if k <= 0 {
        0
    } else {
        rows_cost(g, k - 1) + cost_sum(g[k - 1])
    }
}

/// Sum of `flow * cost` over every edge of the residual graph. An edge and its paired edge
/// carry opposite flows and opposite costs, so each unit sent over an edge of cost `c` counts
/// `2 * c` here: this is twice the cost of the flow in the network.
pub open spec fn graph_cost(g: Seq<Seq<Edge>>) -> int {
    rows_cost(g, g.len() as int)
}

proof fn lemma_cost_sum_update(s: Seq<Edge>, i: int, e: Edge)
    requires
        0 <= i < s.len(),
    ensures
        cost_sum(s.update(i, e)) == cost_sum(s) - s[i].flow * s[i].cost + e.flow * e.cost,
    decreases s.len(),
{
    if i == s.len() - 1 {
        assert(s.update(i, e).drop_last() =~= s.drop_last());
    } else {
        lemma_cost_sum_update(s.drop_last(), i, e);
        assert(s.update(i, e).drop_last() =~= s.drop_last().update(i, e));
    }
}

proof fn lemma_rows_cost_update(g: Seq<Seq<Edge>>, k: int, u: int, row: Seq<Edge>)
    requires
        0 <= u < g.len(),
        k <= g.len(),
    ensures
        rows_cost(g.update(u, row), k) == rows_cost(g, k) + (if u < k { cost_sum(row) - cost_sum(g[u]) } else { 0 }),
    decreases k,
{
    if k > 0 {
        lemma_rows_cost_update(g, k - 1, u, row);
    }
}

proof fn lemma_cost_sum_push(s: Seq<Edge>, e: Edge)
    ensures
        cost_sum(s.push(e)) == cost_sum(s) + e.flow * e.cost,
{
    assert(s.push(e).drop_last() =~= s);
}

/// Sum of the costs of the first `k` steps of a path.
pub open spec fn path_cost_upto(g: Seq<Seq<Edge>>, path: Seq<(usize, usize)>, k: int) -> int
    decreases k,
{
    if k <= 0 {
        0
    } else {
        path_cost_upto(g, path, k - 1) + g[path[k - 1].0 as int][path[k - 1].1 as int].cost
    }
}

/// Sum of the costs of the edges of a path.
pub open spec fn path_cost(g: Seq<Seq<Edge>>, path: Seq<(usize, usize)>) -> int {
    path_cost_upto(g, path, path.len() as int)
}

/// The graph after appending the edge `from -> to` and its reverse edge.
pub open spec fn with_edge(g: Seq<Seq<Edge>>, from: int, to: int, cap: i64, cost: i64) -> Seq<Seq<Edge>> {
    g.update(from, g[from].push(Edge { to: to as usize, rev_idx: g[to].len() as usize, cap, flow: 0, cost })).update(
        to,
        g[to].push(Edge { to: from as usize, rev_idx: g[from].len() as usize, cap: 0, flow: 0, cost: (-cost) as i64 }),
    )
}

/// A new edge and its paired edge carry no flow, so adding them leaves the cost sum alone.
proof fn lemma_with_edge_cost(g: Seq<Seq<Edge>>, from: int, to: int, cap: i64, cost: i64)
    requires
        0 <= from < g.len(),
        0 <= to < g.len(),
        from != to,
    ensures
        graph_cost(with_edge(g, from, to, cap, cost)) == graph_cost(g),
{
    let ef = Edge { to: to as usize, rev_idx: g[to].len() as usize, cap, flow: 0, cost };
    let er = Edge { to: from as usize, rev_idx: g[from].len() as usize, cap: 0, flow: 0, cost: (-cost) as i64 };
    let g1 = g.update(from, g[from].push(ef));
    lemma_cost_sum_push(g[from], ef);
    lemma_rows_cost_update(g, g.len() as int, from, g[from].push(ef));
    assert(g1[to] == g[to]);
    lemma_cost_sum_push(g1[to], er);
    lemma_rows_cost_update(g1, g1.len() as int, to, g1[to].push(er));
}

/// With no edge at all, the cost sum is 0.
proof fn lemma_empty_rows_cost(g: Seq<Seq<Edge>>, k: int)
    requires
        k <= g.len(),
        forall|v: int| 0 <= v < g.len() ==> (#[trigger] g[v]).len() == 0,
    ensures
        rows_cost(g, k) == 0,
    decreases k,
{
    if k > 0 {
        lemma_empty_rows_cost(g, k - 1);
        assert(g[k - 1].len() == 0);
    }
}

/// The graph after adding an edge whose flow is bounded to `cap_min..=cap_max`.
pub open spec fn with_bounded_edge(
    g: Seq<Seq<Edge>>,
    from: int,
    to: int,
    cap_min: i64,
    cap_max: i64,
    cost: i64,
) -> Seq<Seq<Edge>> {
    let g1 = with_edge(g, from, to, (cap_max - cap_min) as i64, cost);
    if cap_min > 0 {
        with_edge(with_edge(g1, g.len() - 2, to, cap_min, cost), from, g.len() - 1, cap_min, cost)
    } else {
        g1
    }
}

/// Appending a correctly paired edge and its reverse keeps the graph consistent.
proof fn lemma_add_pair(g0: Seq<Seq<Edge>>, g: Seq<Seq<Edge>>, from: int, to: int, ef: Edge, er: Edge)
    requires
        graph_ok(g0),
        0 <= from < g0.len(),
        0 <= to < g0.len(),
        from != to,
        g.len() == g0.len(),
        g[from] == g0[from].push(ef),
        g[to] == g0[to].push(er),
        forall|v: int| 0 <= v < g0.len() && v != from && v != to ==> #[trigger] g[v] == g0[v],
        ef.to == to,
        ef.rev_idx == g0[to].len(),
        er.to == from,
        er.rev_idx == g0[from].len(),
        ef.flow == 0,
        er.flow == 0,
        er.cost == -ef.cost,
        ef.cost > i64::MIN,
        er.cost > i64::MIN,
        ef.cap >= 0,
        er.cap == 0,
    ensures
        graph_ok(g),
{
    assert forall|v: int, i: int| 0 <= v < g.len() && 0 <= i < g[v].len() implies #[trigger] pair_ok(g, v, i) by {
        if v == from && i == g0[from].len() {
        } else if v == to && i == g0[to].len() {
        } else {
            assert(g[v][i] == g0[v][i]);
            assert(pair_ok(g0, v, i));
            let e = g0[v][i];
            assert(g[e.to as int][e.rev_idx as int] == g0[e.to as int][e.rev_idx as int]);
        }
    }
}

/// The lists of edges, as sequences.
pub open spec fn rows(g: Seq<Vec<Edge>>) -> Seq<Seq<Edge>> {
    g.map_values(|r: Vec<Edge>| r@)
}

/// The edge can carry more flow.
pub open spec fn residual(e: Edge) -> bool {
    e.flow < e.cap
}

/// Levels closed under residual edges: a labelled vertex reaches only labelled vertices.
pub open spec fn levels_closed(g: Seq<Seq<Edge>>, level: Seq<Option<usize>>) -> bool {
    forall|u: int, i: int|
        #![trigger level[u], g[u][i]]
        0 <= u < g.len() && 0 <= i < g[u].len() && level[u] is Some && residual(g[u][i]) ==> level[g[u][i].to as int] is Some
}

/// Every labelled vertex but `source` is reached by a residual edge from a vertex one level
/// lower.
pub open spec fn levels_sound(g: Seq<Seq<Edge>>, level: Seq<Option<usize>>, source: int) -> bool {
    &&& level[source] == Some(0usize)
    &&& forall|u: int|
        #![trigger level[u]]
        0 <= u < g.len() && u != source && level[u] is Some ==> level[u].unwrap() > 0 && exists|w: int, i: int|
            #![trigger g[w][i]]
            0 <= w < g.len() && 0 <= i < g[w].len() && g[w][i].to == u && residual(g[w][i]) && level[w] == Some(
                (level[u].unwrap() - 1) as usize,
            )
}

/// Number of unlabelled vertices.
pub open spec fn count_none(s: Seq<Option<usize>>) -> nat
    decreases s.len(),
{
    if s.len() == 0 {
        0
    } else {
        count_none(s.drop_last()) + if s.last() is None { 1nat } else { 0nat }
    }
}

proof fn lemma_count_none_label(s: Seq<Option<usize>>, i: int, d: usize)
    requires
        0 <= i < s.len(),
        s[i] is None,
    ensures
        count_none(s.update(i, Some(d))) + 1 == count_none(s),
    decreases s.len(),
{
    if i == s.len() - 1 {
        assert(s.update(i, Some(d)).drop_last() =~= s.drop_last());
    } else {
        lemma_count_none_label(s.drop_last(), i, d);
        assert(s.update(i, Some(d)).drop_last() =~= s.drop_last().update(i, Some(d)));
    }
}

/// The queue holds exactly the labelled vertices, each labelled at most with its position.
#[verifier::opaque]
spec fn queue_ok(q: Seq<usize>, lv: Seq<Option<usize>>, n: int) -> bool {
    &&& forall|k: int| 0 <= k < q.len() ==> (#[trigger] q[k]) < n && lv[q[k] as int] is Some && lv[q[k] as int].unwrap() <= k
    &&& forall|u: int| 0 <= u < n && (#[trigger] lv[u]) is Some ==> exists|k: int| 0 <= k < q.len() && q[k] == u
}

/// The residual edges of the first `head` queued vertices lead to labelled vertices.
#[verifier::opaque]
spec fn prefix_done(gs: Seq<Seq<Edge>>, q: Seq<usize>, head: int, lv: Seq<Option<usize>>) -> bool {
    forall|k: int, i: int|
        #![trigger q[k], gs[q[k] as int][i]]
        0 <= k < head && 0 <= i < gs[q[k] as int].len() && residual(gs[q[k] as int][i]) ==> lv[gs[q[k] as int][i].to as int] is Some
}

/// The residual edges among the first `j` edges of `v` lead to labelled vertices.
#[verifier::opaque]
spec fn row_done(gs: Seq<Seq<Edge>>, v: int, j: int, lv: Seq<Option<usize>>) -> bool {
    forall|i: int| 0 <= i < j && residual(#[trigger] gs[v][i]) ==> lv[gs[v][i].to as int] is Some
}

#[verifier::opaque]
spec fn bfs_sound(gs: Seq<Seq<Edge>>, lv: Seq<Option<usize>>, source: int) -> bool {
    levels_sound(gs, lv, source)
}

proof fn lemma_queue_at(q: Seq<usize>, lv: Seq<Option<usize>>, n: int, k: int)
    requires
        queue_ok(q, lv, n),
        0 <= k < q.len(),
    ensures
        q[k] < n,
        lv[q[k] as int] is Some,
        lv[q[k] as int].unwrap() <= k,
{
    reveal(queue_ok);
}

/// Labelling the target of the residual edge `j` of `v` and queueing it keeps the search's
/// invariants.
proof fn lemma_bfs_label(
    gs: Seq<Seq<Edge>>,
    lv0: Seq<Option<usize>>,
    lv1: Seq<Option<usize>>,
    q0: Seq<usize>,
    q1: Seq<usize>,
    source: int,
    head: int,
    v: int,
    j: int,
    dv: usize,
)
    requires
        graph_ok(gs),
        lv0.len() == gs.len(),
        0 <= source < gs.len(),
        bfs_sound(gs, lv0, source),
        queue_ok(q0, lv0, gs.len() as int),
        prefix_done(gs, q0, head, lv0),
        row_done(gs, v, j, lv0),
        0 <= head < q0.len(),
        q0[head] == v,
        0 <= v < gs.len(),
        0 <= j < gs[v].len(),
        residual(gs[v][j]),
        0 <= gs[v][j].to < gs.len(),
        lv0[gs[v][j].to as int] is None,
        lv0[v] == Some(dv),
        dv <= head,
        dv < usize::MAX,
        lv1 == lv0.update(gs[v][j].to as int, Some((dv + 1) as usize)),
        q1 == q0.push(gs[v][j].to),
    ensures
        bfs_sound(gs, lv1, source),
        queue_ok(q1, lv1, gs.len() as int),
        prefix_done(gs, q1, head, lv1),
        row_done(gs, v, j + 1, lv1),
        count_none(lv1) + 1 == count_none(lv0),
{
    reveal(bfs_sound);
    reveal(queue_ok);
    reveal(prefix_done);
    reveal(row_done);
    let n = gs.len() as int;
    let t = gs[v][j].to as int;
    lemma_count_none_label(lv0, t, (dv + 1) as usize);
    assert forall|u: int| 0 <= u < n && u != source && (#[trigger] lv1[u]) is Some implies lv1[u].unwrap() > 0
        && exists|w: int, i: int|
        #![trigger gs[w][i]]
        0 <= w < n && 0 <= i < gs[w].len() && gs[w][i].to == u && residual(gs[w][i]) && lv1[w] == Some(
            (lv1[u].unwrap() - 1) as usize,
        ) by {
        if u == t {
            assert(gs[v][j].to == u);
            assert(lv1[v] == lv0[v]);
        } else {
            assert(lv0[u] is Some);
            let (w, i) = choose|w: int, i: int|
                #![trigger gs[w][i]]
                0 <= w < n && 0 <= i < gs[w].len() && gs[w][i].to == u && residual(gs[w][i]) && lv0[w] == Some(
                    (lv0[u].unwrap() - 1) as usize,
                );
            assert(lv1[w] == lv0[w]);
        }
    }
    assert forall|u: int| 0 <= u < n && (#[trigger] lv1[u]) is Some implies exists|k: int| 0 <= k < q1.len() && q1[k] == u by {
        if u == t {
            assert(q1[q0.len() as int] == u);
        } else {
            assert(lv0[u] is Some);
            let k = choose|k: int| 0 <= k < q0.len() && q0[k] == u;
            assert(q1[k] == u);
        }
    }
    assert forall|k: int| 0 <= k < q1.len() implies (#[trigger] q1[k]) < n && lv1[q1[k] as int] is Some
        && lv1[q1[k] as int].unwrap() <= k by {
        if k < q0.len() {
            assert(q1[k] == q0[k]);
            if q0[k] as int != t {
                assert(lv1[q0[k] as int] == lv0[q0[k] as int]);
            }
        }
    }
    assert forall|k: int, i: int|
        #![trigger q1[k], gs[q1[k] as int][i]]
        0 <= k < head && 0 <= i < gs[q1[k] as int].len() && residual(gs[q1[k] as int][i]) implies lv1[gs[q1[k] as int][i].to as int] is Some by {
        assert(q1[k] == q0[k]);
        assert(pair_ok(gs, q0[k] as int, i));
        let x = gs[q0[k] as int][i].to as int;
        assert(lv0[x] is Some);
        if x != t {
            assert(lv1[x] == lv0[x]);
        }
    }
    assert forall|i: int| 0 <= i < j + 1 && residual(#[trigger] gs[v][i]) implies lv1[gs[v][i].to as int] is Some by {
        if i < j {
            assert(pair_ok(gs, v, i));
            let x = gs[v][i].to as int;
            assert(lv0[x] is Some);
            if x != t {
                assert(lv1[x] == lv0[x]);
            }
        }
    }
}

proof fn lemma_row_skip(gs: Seq<Seq<Edge>>, v: int, j: int, lv: Seq<Option<usize>>)
    requires
        row_done(gs, v, j, lv),
        0 <= v < gs.len(),
        0 <= j < gs[v].len(),
        residual(gs[v][j]) ==> lv[gs[v][j].to as int] is Some,
    ensures
        row_done(gs, v, j + 1, lv),
{
    reveal(row_done);
}

proof fn lemma_row_finished(gs: Seq<Seq<Edge>>, q: Seq<usize>, head: int, lv: Seq<Option<usize>>)
    requires
        prefix_done(gs, q, head, lv),
        0 <= head < q.len(),
        row_done(gs, q[head] as int, gs[q[head] as int].len() as int, lv),
    ensures
        prefix_done(gs, q, head + 1, lv),
{
    reveal(prefix_done);
    reveal(row_done);
}

proof fn lemma_bfs_done(gs: Seq<Seq<Edge>>, q: Seq<usize>, lv: Seq<Option<usize>>, source: int)
    requires
        lv.len() == gs.len(),
        queue_ok(q, lv, gs.len() as int),
        prefix_done(gs, q, q.len() as int, lv),
        bfs_sound(gs, lv, source),
    ensures
        levels_closed(gs, lv),
        levels_sound(gs, lv, source),
{
    reveal(queue_ok);
    reveal(prefix_done);
    reveal(bfs_sound);
    assert forall|u: int, i: int|
        #![trigger lv[u], gs[u][i]]
        0 <= u < gs.len() && 0 <= i < gs[u].len() && lv[u] is Some && residual(gs[u][i]) implies lv[gs[u][i].to as int] is Some by {
        let k = choose|k: int| 0 <= k < q.len() && q[k] == u;
        assert(gs[q[k] as int][i] == gs[u][i]);
    }
}

/// Levels of the vertices by breadth-first search from `source` over residual edges.
fn bfs(g: &Vec<Vec<Edge>>, source: usize) -> (level: Vec<Option<usize>>)
    requires
        graph_ok(rows(g@)),
        source < g@.len(),
    ensures
        level@.len() == g@.len(),
        levels_closed(rows(g@), level@),
        levels_sound(rows(g@), level@, source as int),
{
    let ghost gs = rows(g@);
    let n = g.len();
    let mut level: Vec<Option<usize>> = Vec::new();
    for k in 0..n
        invariant
            level@.len() == k,
            forall|u: int| 0 <= u < k ==> level@[u] is None,
    {
        level.push(None);
    }
    let ghost blank = level@;
    level.set(source, Some(0));
    let mut que: Vec<usize> = Vec::new();
    que.push(source);
    proof {
        reveal(queue_ok);
        reveal(prefix_done);
        reveal(bfs_sound);
        assert forall|u: int| 0 <= u < n && (#[trigger] level@[u]) is Some implies exists|k: int| 0 <= k < que@.len() && que@[k] == u by {
            if u != source {
                assert(level@[u] == blank[u]);
            }
            assert(que@[0] == source);
        }
        assert forall|u: int| 0 <= u < n && u != source && (#[trigger] level@[u]) is Some implies false by {
            assert(level@[u] == blank[u]);
        }
    }
    let mut head: usize = 0;
    while head < que.len()
        invariant
            n == g@.len(),
            gs == rows(g@),
            graph_ok(gs),
            source < n,
            level@.len() == n,
            head <= que@.len(),
            queue_ok(que@, level@, n as int),
            prefix_done(gs, que@, head as int, level@),
            bfs_sound(gs, level@, source as int),
        decreases count_none(level@), que@.len() - head,
    {
        let v = que[head];
        proof {
            lemma_queue_at(que@, level@, n as int, head as int);
        }
        let dv = level[v].unwrap();
        let ghost none0 = count_none(level@);
        let ghost len0 = que@.len();
        let deg = g[v].len();
        proof {
            reveal(row_done);
        }
        for j in 0..deg
            invariant
                n == g@.len(),
                gs == rows(g@),
                graph_ok(gs),
                source < n,
                v < n,
                deg == gs[v as int].len(),
                level@.len() == n,
                head < len0 <= que@.len(),
                que@[head as int] == v,
                level@[v as int] == Some(dv),
                dv <= head,
                count_none(level@) + (que@.len() - len0) == none0,
                queue_ok(que@, level@, n as int),
                prefix_done(gs, que@, head as int, level@),
                row_done(gs, v as int, j as int, level@),
                bfs_sound(gs, level@, source as int),
        {
            let e = g[v][j];
            assert(pair_ok(gs, v as int, j as int));
            if level[e.to].is_none() && e.flow < e.cap {
                let ghost old_level = level@;
                let ghost old_que = que@;
                let ql = que.len();
                assert(dv < ql);
                level.set(e.to, Some(dv + 1));
                que.push(e.to);
                proof {
                    lemma_bfs_label(gs, old_level, level@, old_que, que@, source as int, head as int, v as int, j as int, dv);
                }
            } else {
                proof {
                    lemma_row_skip(gs, v as int, j as int, level@);
                }
            }
        }
        proof {
            lemma_row_finished(gs, que@, head as int, level@);
        }
        head = head + 1;
    }
    proof {
        lemma_bfs_done(gs, que@, level@, source as int);
    }
    level
}

/// The graph after sending `d` more units along edge `i` of `v` (and `d` fewer along its
/// paired edge).
pub open spec fn push_flow(g: Seq<Seq<Edge>>, v: int, i: int, d: int) -> Seq<Seq<Edge>> {
    let e = g[v][i];
    let g1 = g.update(v, g[v].update(i, Edge { to: e.to, rev_idx: e.rev_idx, cap: e.cap, flow: (e.flow + d) as i64, cost: e.cost }));
    let r = g1[e.to as int][e.rev_idx as int];
    g1.update(
        e.to as int,
        g1[e.to as int].update(e.rev_idx as int, Edge { to: r.to, rev_idx: r.rev_idx, cap: r.cap, flow: (r.flow - d) as i64, cost: r.cost }),
    )
}

/// Sending flow along an edge within its capacity keeps the graph consistent, moves `d` units
/// of net flow from the edge's head to its tail, and leaves the other vertices alone.
proof fn lemma_push_flow(g: Seq<Seq<Edge>>, v: int, i: int, d: int)
    requires
        graph_ok(g),
        0 <= v < g.len(),
        0 <= i < g[v].len(),
        0 <= d <= g[v][i].cap - g[v][i].flow,
    ensures
        graph_ok(push_flow(g, v, i, d)),
        same_shape(g, push_flow(g, v, i, d)),
        forall|u: int|
            0 <= u < g.len() ==> #[trigger] net(push_flow(g, v, i, d), u) == net(g, u) + (if u == v { d } else { 0 }) - (
            if u == g[v][i].to { d } else { 0 }),
{
    let e = g[v][i];
    assert(pair_ok(g, v, i));
    let t = e.to as int;
    let ri = e.rev_idx as int;
    let ne = Edge { to: e.to, rev_idx: e.rev_idx, cap: e.cap, flow: (e.flow + d) as i64, cost: e.cost };
    let g1 = g.update(v, g[v].update(i, ne));
    let r = g1[t][ri];
    assert(r == g[t][ri]);
    let nr = Edge { to: r.to, rev_idx: r.rev_idx, cap: r.cap, flow: (r.flow - d) as i64, cost: r.cost };
    let g2 = push_flow(g, v, i, d);
    assert(g2 == g1.update(t, g1[t].update(ri, nr)));
    assert forall|u: int, k: int| 0 <= u < g2.len() && 0 <= k < g2[u].len() implies #[trigger] pair_ok(g2, u, k) by {
        assert(pair_ok(g, u, k));
        let x = g[u][k];
        assert(pair_ok(g, x.to as int, x.rev_idx as int));
    }
    lemma_flow_sum_update(g[v], i, ne);
    lemma_flow_sum_update(g1[t], ri, nr);
}

/// Sending `d` units along an edge of cost `c` (and back along its paired edge of cost `-c`)
/// adds `2 * d * c` to the cost sum of the graph.
proof fn lemma_push_cost(g: Seq<Seq<Edge>>, v: int, i: int, d: int)
    requires
        graph_ok(g),
        0 <= v < g.len(),
        0 <= i < g[v].len(),
        0 <= d <= g[v][i].cap - g[v][i].flow,
    ensures
        graph_cost(push_flow(g, v, i, d)) == graph_cost(g) + 2 * d * g[v][i].cost,
{
    let e = g[v][i];
    assert(pair_ok(g, v, i));
    let t = e.to as int;
    let ri = e.rev_idx as int;
    assert(pair_ok(g, t, ri));
    let ne = Edge { to: e.to, rev_idx: e.rev_idx, cap: e.cap, flow: (e.flow + d) as i64, cost: e.cost };
    assert(ne.flow == e.flow + d);
    let row1 = g[v].update(i, ne);
    let g1 = g.update(v, row1);
    let r = g1[t][ri];
    assert(r == g[t][ri]);
    let nr = Edge { to: r.to, rev_idx: r.rev_idx, cap: r.cap, flow: (r.flow - d) as i64, cost: r.cost };
    assert(nr.flow == r.flow - d);
    let row2 = g1[t].update(ri, nr);
    let g2 = push_flow(g, v, i, d);
    assert(g2 == g1.update(t, row2));
    lemma_cost_sum_update(g[v], i, ne);
    lemma_rows_cost_update(g, g.len() as int, v, row1);
    lemma_cost_sum_update(g1[t], ri, nr);
    lemma_rows_cost_update(g1, g1.len() as int, t, row2);
    assert(ne.flow * ne.cost - e.flow * e.cost == d * e.cost) by (nonlinear_arith)
        requires
            ne.flow == e.flow + d,
            ne.cost == e.cost,
    ;
    assert(nr.flow * nr.cost - r.flow * r.cost == d * e.cost) by (nonlinear_arith)
        requires
            nr.flow == r.flow - d,
            nr.cost == r.cost,
            r.cost == -e.cost,
    ;
    assert(g1[t] == g[t]);
    assert(g1.len() == g.len());
    assert(graph_cost(g1) == graph_cost(g) + d * e.cost);
    assert(graph_cost(g2) == graph_cost(g1) + d * e.cost);
    assert(2 * d * e.cost == d * e.cost + d * e.cost) by (nonlinear_arith);
}

/// Edge `i` of `u` has residual capacity and goes to a strictly higher level.
pub open spec fn forward(g: Seq<Seq<Edge>>, level: Seq<Option<usize>>, u: int, i: int) -> bool {
    &&& residual(g[u][i])
    &&& level[u] is Some
    &&& level[g[u][i].to as int] is Some
    &&& level[u].unwrap() < level[g[u][i].to as int].unwrap()
}

/// `sink` is reached from `u` in at most `k` forward edges.
pub open spec fn alive(g: Seq<Seq<Edge>>, level: Seq<Option<usize>>, sink: int, u: int, k: nat) -> bool
    decreases k,
{
    u == sink || (k > 0 && exists|i: int|
        #![trigger g[u][i]]
        0 <= i < g[u].len() && forward(g, level, u, i) && alive(g, level, sink, g[u][i].to as int, (k - 1) as nat))
}

/// `sink` cannot be reached from `u` by forward edges.
pub open spec fn dead(g: Seq<Seq<Edge>>, level: Seq<Option<usize>>, sink: int, u: int) -> bool {
    forall|k: nat| !#[trigger] alive(g, level, sink, u, k)
}

/// The forward edges below each vertex's search position lead to dead vertices.
pub open spec fn skipped_dead(g: Seq<Seq<Edge>>, level: Seq<Option<usize>>, sink: int, sc: Seq<usize>) -> bool {
    forall|u: int, i: int|
        #![trigger g[u][i], sc[u]]
        0 <= u < g.len() && 0 <= i < sc[u] && i < g[u].len() && forward(g, level, u, i) ==> dead(
            g,
            level,
            sink,
            g[u][i].to as int,
        )
}

/// A vertex other than the sink whose forward edges all lead to dead vertices is dead.
proof fn lemma_dead_by_edges(g: Seq<Seq<Edge>>, level: Seq<Option<usize>>, sink: int, v: int)
    requires
        v != sink,
        forall|i: int| 0 <= i < g[v].len() && forward(g, level, v, i) ==> dead(g, level, sink, #[trigger] g[v][i].to as int),
    ensures
        dead(g, level, sink, v),
{
    assert forall|k: nat| !#[trigger] alive(g, level, sink, v, k) by {
        if alive(g, level, sink, v, k) {
            let i = choose|i: int|
                #![trigger g[v][i]]
                0 <= i < g[v].len() && forward(g, level, v, i) && alive(g, level, sink, g[v][i].to as int, (k - 1) as nat);
            assert(dead(g, level, sink, g[v][i].to as int));
        }
    }
}

/// Every forward edge after pushing flow along a forward edge was a forward edge before, to the
/// same vertex; so what could reach the sink after could before.
proof fn lemma_push_alive(g: Seq<Seq<Edge>>, level: Seq<Option<usize>>, sink: int, v: int, i: int, d: int, u: int, k: nat)
    requires
        graph_ok(g),
        0 <= v < g.len(),
        0 <= i < g[v].len(),
        forward(g, level, v, i),
        0 <= d <= g[v][i].cap - g[v][i].flow,
        0 <= u < g.len(),
        alive(push_flow(g, v, i, d), level, sink, u, k),
    ensures
        alive(g, level, sink, u, k),
    decreases k,
{
    let g2 = push_flow(g, v, i, d);
    lemma_push_flow(g, v, i, d);
    if u != sink {
        let j = choose|j: int|
            #![trigger g2[u][j]]
            0 <= j < g2[u].len() && forward(g2, level, u, j) && alive(g2, level, sink, g2[u][j].to as int, (k - 1) as nat);
        assert(pair_ok(g, v, i));
        let e = g[v][i];
        assert(g2[u][j].to == g[u][j].to);
        assert(pair_ok(g, u, j));
        if u == e.to && j == e.rev_idx {
            assert(g2[u][j].to == v);
        }
        assert(forward(g, level, u, j));
        lemma_push_alive(g, level, sink, v, i, d, g2[u][j].to as int, (k - 1) as nat);
    }
}

/// Pushing flow along a forward edge keeps the skipped edges dead.
proof fn lemma_push_skipped(g: Seq<Seq<Edge>>, level: Seq<Option<usize>>, sink: int, sc: Seq<usize>, v: int, i: int, d: int)
    requires
        graph_ok(g),
        0 <= v < g.len(),
        0 <= i < g[v].len(),
        forward(g, level, v, i),
        0 <= d <= g[v][i].cap - g[v][i].flow,
        skipped_dead(g, level, sink, sc),
        sc.len() == g.len(),
    ensures
        skipped_dead(push_flow(g, v, i, d), level, sink, sc),
{
    let g2 = push_flow(g, v, i, d);
    lemma_push_flow(g, v, i, d);
    assert forall|u: int, j: int|
        #![trigger g2[u][j], sc[u]]
        0 <= u < g2.len() && 0 <= j < sc[u] && j < g2[u].len() && forward(g2, level, u, j) implies dead(
            g2,
            level,
            sink,
            g2[u][j].to as int,
        ) by {
        assert(pair_ok(g, v, i));
        let e = g[v][i];
        assert(g2[u][j].to == g[u][j].to);
        assert(pair_ok(g, u, j));
        if u == e.to && j == e.rev_idx {
            assert(g2[u][j].to == v);
        }
        assert(forward(g, level, u, j));
        assert(dead(g, level, sink, g[u][j].to as int));
        let t = g[u][j].to as int;
        assert forall|k: nat| !#[trigger] alive(g2, level, sink, t, k) by {
            if alive(g2, level, sink, t, k) {
                lemma_push_alive(g, level, sink, v, i, d, t, k);
            }
        }
    }
}

/// The vertex `j` steps back from `w` along the search's predecessors.
pub open spec fn level_pred(g: Seq<Seq<Edge>>, level: Seq<Option<usize>>, w: int, j: nat) -> int
    decreases j,
{
    if j == 0 {
        w
    } else {
        let u = level_pred(g, level, w, (j - 1) as nat);
        let (p, i) = choose|p: int, i: int|
            #![trigger g[p][i]]
            0 <= p < g.len() && 0 <= i < g[p].len() && g[p][i].to == u && residual(g[p][i]) && level[p] == Some(
                (level[u].unwrap() - 1) as usize,
            );
        p
    }
}

/// Going `j` steps back from a labelled `w` (with `j` at most its level) reaches a vertex `j`
/// levels lower from which `w` is reached in `j` forward edges.
proof fn lemma_level_chain(g: Seq<Seq<Edge>>, level: Seq<Option<usize>>, source: int, w: int, j: nat)
    requires
        levels_sound(g, level, source),
        level.len() == g.len(),
        graph_ok(g),
        0 <= source < g.len(),
        0 <= w < g.len(),
        level[w] is Some,
        j <= level[w].unwrap(),
    ensures
        0 <= level_pred(g, level, w, j) < g.len(),
        level[level_pred(g, level, w, j)] == Some((level[w].unwrap() - j) as usize),
        alive(g, level, w, level_pred(g, level, w, j), j),
    decreases j,
{
    if j > 0 {
        lemma_level_chain(g, level, source, w, (j - 1) as nat);
        let u = level_pred(g, level, w, (j - 1) as nat);
        assert(level[u].unwrap() > 0);
        if u == source {
            assert(level[source] == Some(0usize));
        }
        let (p, i) = choose|p: int, i: int|
            #![trigger g[p][i]]
            0 <= p < g.len() && 0 <= i < g[p].len() && g[p][i].to == u && residual(g[p][i]) && level[p] == Some(
                (level[u].unwrap() - 1) as usize,
            );
        assert(level_pred(g, level, w, j) == p);
        assert(forward(g, level, p, i));
        assert(alive(g, level, w, g[p][i].to as int, (j - 1) as nat));
    }
}

/// A labelled sink can be reached from the source by forward edges.
proof fn lemma_sink_alive(g: Seq<Seq<Edge>>, level: Seq<Option<usize>>, source: int, sink: int)
    requires
        levels_sound(g, level, source),
        level.len() == g.len(),
        graph_ok(g),
        0 <= source < g.len(),
        0 <= sink < g.len(),
        level[sink] is Some,
    ensures
        !dead(g, level, sink, source),
{
    let d = level[sink].unwrap() as nat;
    lemma_level_chain(g, level, source, sink, d);
    let s0 = level_pred(g, level, sink, d);
    if s0 != source {
        assert(level[s0].unwrap() > 0);
    }
    assert(alive(g, level, sink, source, d));
}

/// Whether `u` is labelled with a level of at least `d`.
pub open spec fn at_or_above(level: Seq<Option<usize>>, u: int, d: int) -> bool {
    level[u] is Some && level[u].unwrap() >= d
}

/// Find an augmenting path from `v` to `sink` along edges that go one level up, and push up to
/// `flow` units along it; returns the amount pushed.
fn dfs(
    g: &mut Vec<Vec<Edge>>,
    v: usize,
    sink: usize,
    flow: i64,
    search_cnt: &mut Vec<usize>,
    level: &Vec<Option<usize>>,
) -> (f: i64)
    requires
        graph_ok(rows(old(g)@)),
        v < old(g)@.len(),
        sink < old(g)@.len(),
        flow >= 0,
        old(search_cnt)@.len() == old(g)@.len(),
        level@.len() == old(g)@.len(),
        level@[v as int] is Some,
        flow > 0 ==> skipped_dead(rows(old(g)@), level@, sink as int, old(search_cnt)@),
    ensures
        graph_ok(rows(final(g)@)),
        same_shape(rows(old(g)@), rows(final(g)@)),
        0 <= f <= flow,
        flow > 0 ==> skipped_dead(rows(final(g)@), level@, sink as int, final(search_cnt)@),
        flow > 0 && f == 0 ==> dead(rows(final(g)@), level@, sink as int, v as int),
        f == 0 ==> rows(final(g)@) == rows(old(g)@),
        v == sink ==> f == flow && rows(final(g)@) == rows(old(g)@) && final(search_cnt)@ == old(search_cnt)@,
        forall|u: int|
            0 <= u < old(g)@.len() ==> #[trigger] net(rows(final(g)@), u) == net(rows(old(g)@), u) + (if u == v && v
                != sink { f as int } else { 0 }) - (if u == sink && v != sink { f as int } else { 0 }),
        final(search_cnt)@.len() == old(search_cnt)@.len(),
        forall|u: int|
            0 <= u < old(g)@.len() && !at_or_above(level@, u, level@[v as int].unwrap() as int) ==> #[trigger] rows(
                final(g)@,
            )[u] == rows(old(g)@)[u],
        forall|u: int|
            0 <= u < old(g)@.len() && !at_or_above(level@, u, level@[v as int].unwrap() as int) ==> #[trigger] final(search_cnt)@[u]
                == old(search_cnt)@[u],
    decreases usize::MAX - level@[v as int].unwrap(),
{
    if v == sink {
        return flow;
    }
    let ghost g0 = rows(g@);
    let ghost sc0 = search_cnt@;
    let ghost lv = level@[v as int].unwrap() as int;
    while search_cnt[v] < g[v].len()
        invariant
            g0 == rows(old(g)@),
            rows(g@) == g0,
            graph_ok(g0),
            v < g@.len(),
            sink < g@.len(),
            v != sink,
            flow >= 0,
            search_cnt@.len() == g@.len(),
            search_cnt@.len() == sc0.len(),
            level@.len() == g@.len(),
            level@[v as int] is Some,
            lv == level@[v as int].unwrap(),
            sc0 == old(search_cnt)@,
            forall|u: int| 0 <= u < g@.len() && !at_or_above(level@, u, lv) ==> #[trigger] search_cnt@[u] == sc0[u],
            flow > 0 ==> skipped_dead(g0, level@, sink as int, search_cnt@),
        decreases g@[v as int]@.len() - search_cnt@[v as int],
    {
        let i = search_cnt[v];
        let edge = g[v][i];
        proof {
            assert(g0[v as int][i as int] == edge);
            assert(pair_ok(g0, v as int, i as int));
            assert(pair_ok(g0, edge.to as int, edge.rev_idx as int));
        }
        let to = edge.to;
        let rev_idx = edge.rev_idx;
        let remain_capacity = edge.cap - edge.flow;
        if let Some(nxt_level) = level[to] {
            if level[v].unwrap() < nxt_level && remain_capacity > 0 {
                let sub = if flow < remain_capacity { flow } else { remain_capacity };
                let ghost sc_before = search_cnt@;
                let additional_flow = dfs(g, to, sink, sub, search_cnt, level);
                let ghost g1 = rows(g@);
                proof {
                    assert(!at_or_above(level@, v as int, nxt_level as int));
                    assert(g1[v as int] == g0[v as int]);
                    assert(pair_ok(g1, v as int, i as int));
                    assert(g1[to as int][rev_idx as int].flow == -edge.flow);
                }
                if additional_flow > 0 {
                    let mut fe = g[v][i];
                    fe.flow = fe.flow + additional_flow;
                    g[v].set(i, fe);
                    let mut re = g[to][rev_idx];
                    re.flow = re.flow - additional_flow;
                    g[to].set(rev_idx, re);
                    proof {
                        lemma_push_flow(g1, v as int, i as int, additional_flow as int);
                        assert(rows(g@) =~= push_flow(g1, v as int, i as int, additional_flow as int));
                        assert(forward(g1, level@, v as int, i as int));
                        lemma_push_skipped(g1, level@, sink as int, search_cnt@, v as int, i as int, additional_flow as int);
                    }
                    return additional_flow;
                }
                proof {
                    assert(search_cnt@[v as int] == i);
                    if flow > 0 {
                        assert(dead(g0, level@, sink as int, to as int));
                    }
                }
            }
        }
        let ghost sc_prev = search_cnt@;
        search_cnt.set(v, i + 1);
        proof {
            if flow > 0 {
                assert forall|u: int, j: int|
                    #![trigger g0[u][j], search_cnt@[u]]
                    0 <= u < g0.len() && 0 <= j < search_cnt@[u] && j < g0[u].len() && forward(g0, level@, u, j) implies dead(
                        g0,
                        level@,
                        sink as int,
                        g0[u][j].to as int,
                    ) by {
                    if u != v || j != i {
                        assert(sc_prev[u] == search_cnt@[u] || (u == v && j < sc_prev[u]));
                        assert(j < sc_prev[u]);
                    } else {
                        assert(g0[u][j] == edge);
                    }
                }
            }
        }
    }
    proof {
        if flow > 0 {
            assert forall|j: int| 0 <= j < g0[v as int].len() && forward(g0, level@, v as int, j) implies dead(
                g0,
                level@,
                sink as int,
                #[trigger] g0[v as int][j].to as int,
            ) by {
                assert(j < search_cnt@[v as int]);
            }
            lemma_dead_by_edges(g0, level@, sink as int, v as int);
        }
    }
    0
}

/// From `g0` to `g`, `f` units of net flow moved from `source` to `sink`, and the net flow
/// of every other vertex stayed.
pub open spec fn moved(g0: Seq<Seq<Edge>>, g: Seq<Seq<Edge>>, source: int, sink: int, f: int) -> bool {
    forall|u: int|
        0 <= u < g0.len() ==> #[trigger] net(g, u) == net(g0, u) + (if u == source { f } else { 0 }) - (if u
            == sink { f } else { 0 })
}

proof fn lemma_moved_step(
    g0: Seq<Seq<Edge>>,
    g1: Seq<Seq<Edge>>,
    g2: Seq<Seq<Edge>>,
    source: int,
    sink: int,
    f: int,
    d: int,
)
    requires
        source != sink,
        g1.len() == g0.len(),
        moved(g0, g1, source, sink, f),
        forall|u: int|
            0 <= u < g1.len() ==> #[trigger] net(g2, u) == net(g1, u) + (if u == source && source != sink { d } else { 0 })
                - (if u == sink && source != sink { d } else { 0 }),
    ensures
        moved(g0, g2, source, sink, f + d),
{
    assert forall|u: int| 0 <= u < g0.len() implies #[trigger] net(g2, u) == net(g0, u) + (if u == source { f + d } else { 0 })
        - (if u == sink { f + d } else { 0 }) by {
        assert(net(g1, u) == net(g0, u) + (if u == source { f } else { 0 }) - (if u == sink { f } else { 0 }));
    }
}

proof fn lemma_same_shape_trans(g0: Seq<Seq<Edge>>, g1: Seq<Seq<Edge>>, g2: Seq<Seq<Edge>>)
    requires
        same_shape(g0, g1),
        same_shape(g1, g2),
    ensures
        same_shape(g0, g2),
{
    assert forall|v: int, i: int|
        #![trigger g0[v][i], g2[v][i]]
        0 <= v < g0.len() && 0 <= i < g0[v].len() implies g0[v][i].to == g2[v][i].to && g0[v][i].rev_idx
            == g2[v][i].rev_idx && g0[v][i].cap == g2[v][i].cap && g0[v][i].cost == g2[v][i].cost by {
        assert(g0[v].len() == g1[v].len());
        assert(g1[v][i].to == g2[v][i].to);
    }
    assert forall|v: int| 0 <= v < g0.len() implies (#[trigger] g0[v]).len() == g2[v].len() by {
        assert(g1[v].len() == g2[v].len());
    }
}

/// The net flow out of a vertex is at most the total capacity of its edges.
proof fn lemma_net_le_cap(g0: Seq<Seq<Edge>>, g: Seq<Seq<Edge>>, v: int)
    requires
        graph_ok(g),
        same_shape(g0, g),
        0 <= v < g.len(),
    ensures
        net(g, v) <= cap_sum(g0[v]),
{
    assert forall|i: int| 0 <= i < g[v].len() implies (#[trigger] g[v][i]).flow <= g[v][i].cap by {
        assert(pair_ok(g, v, i));
    }
    lemma_flow_le_cap(g[v]);
    assert forall|i: int| 0 <= i < g0[v].len() implies (#[trigger] g0[v][i]).cap == g[v][i].cap by {
        assert(g0[v][i].cap == g[v][i].cap);
    }
    lemma_cap_sum_same(g0[v], g[v]);
}

/// A run with lower bounds: `dst -> src` closes the cycle (giving `gc`), `f1` units move
/// between the extra vertices (giving `gm`), and unless that falls short of the lower bounds,
/// the result's units then move from `src` to `dst` (giving `g`).
pub open spec fn bounded_run(
    g0: Seq<Seq<Edge>>,
    src: int,
    dst: int,
    lb: int,
    gm: Seq<Seq<Edge>>,
    f1: int,
    r: Option<i64>,
    g: Seq<Seq<Edge>>,
) -> bool {
    let gc = with_edge(g0, dst, src, 1152921504606846976, 0);
    &&& same_shape(gc, gm)
    &&& moved(gc, gm, gc.len() - 2, gc.len() - 1, f1)
    &&& (r is None <==> f1 != lb)
    &&& (r is None ==> g == gm)
    &&& (r is Some ==> r.unwrap() >= 0 && same_shape(gm, g) && moved(gm, g, src, dst, r.unwrap() as int))
}

/// A residual edge leads from `a` to `b`.
pub open spec fn step(g: Seq<Seq<Edge>>, a: int, b: int) -> bool {
    exists|i: int| 0 <= i < g[a].len() && #[trigger] g[a][i].to == b && residual(g[a][i])
}

/// `p` is a walk along residual edges.
pub open spec fn walk(g: Seq<Seq<Edge>>, p: Seq<int>) -> bool {
    &&& p.len() >= 1
    &&& forall|k: int| 0 <= k < p.len() ==> 0 <= #[trigger] p[k] < g.len()
    &&& forall|k: int| 0 <= k < p.len() - 1 ==> #[trigger] step(g, p[k], p[k + 1])
}

/// `t` can be reached from `s` by at least one residual edge.
pub open spec fn reaches(g: Seq<Seq<Edge>>, s: int, t: int) -> bool {
    exists|p: Seq<int>| #[trigger] walk(g, p) && p.len() >= 2 && p[0] == s && p.last() == t
}

proof fn lemma_walk_extend(g: Seq<Seq<Edge>>, p: Seq<int>, b: int)
    requires
        walk(g, p),
        0 <= b < g.len(),
        step(g, p.last(), b),
    ensures
        walk(g, p.push(b)),
{
    let q = p.push(b);
    assert forall|k: int| 0 <= k < q.len() - 1 implies #[trigger] step(g, q[k], q[k + 1]) by {
        if k < p.len() - 1 {
            assert(q[k] == p[k] && q[k + 1] == p[k + 1]);
        }
    }
}

/// A vertex labelled by the search is reached from the source.
proof fn lemma_labelled_reached(g: Seq<Seq<Edge>>, level: Seq<Option<usize>>, source: int, u: int)
    requires
        levels_sound(g, level, source),
        level.len() == g.len(),
        0 <= source < g.len(),
        0 <= u < g.len(),
        u != source,
        level[u] is Some,
    ensures
        reaches(g, source, u),
    decreases level[u].unwrap(),
{
    let (w, i) = choose|w: int, i: int|
        #![trigger g[w][i]]
        0 <= w < g.len() && 0 <= i < g[w].len() && g[w][i].to == u && residual(g[w][i]) && level[w] == Some(
            (level[u].unwrap() - 1) as usize,
        );
    assert(step(g, w, u));
    if w == source {
        let p = seq![source, u];
        assert(p[0] == source && p[1] == u);
        assert(walk(g, p));
    } else {
        lemma_labelled_reached(g, level, source, w);
        let p = choose|p: Seq<int>| #[trigger] walk(g, p) && p.len() >= 2 && p[0] == source && p.last() == w;
        lemma_walk_extend(g, p, u);
        assert(p.push(u)[0] == source);
    }
}

/// Every vertex on a walk from the source is labelled, when the labels are closed under
/// residual edges.
proof fn lemma_walk_labelled(g: Seq<Seq<Edge>>, level: Seq<Option<usize>>, p: Seq<int>, k: int)
    requires
        levels_closed(g, level),
        level.len() == g.len(),
        walk(g, p),
        level[p[0]] is Some,
        0 <= k < p.len(),
    ensures
        level[p[k]] is Some,
    decreases k,
{
    if k > 0 {
        lemma_walk_labelled(g, level, p, k - 1);
        let j = k - 1;
        assert(step(g, p[j], p[j + 1]));
        let i = choose|i: int| 0 <= i < g[p[k - 1]].len() && #[trigger] g[p[k - 1]][i].to == p[k] && residual(g[p[k - 1]][i]);
        assert(0 <= p[k - 1] < g.len());
    }
}

/// Predecessor links point along existing edges.
pub open spec fn prev_ok(g: Seq<Seq<Edge>>, prev: Seq<Option<(usize, usize)>>) -> bool {
    &&& prev.len() == g.len()
    &&& forall|u: int|
        0 <= u < g.len() && (#[trigger] prev[u]) is Some ==> prev[u].unwrap().0 < g.len() && prev[u].unwrap().1
            < g[prev[u].unwrap().0 as int].len() && g[prev[u].unwrap().0 as int][prev[u].unwrap().1 as int].to == u
}

/// The head of step `k` of a path listed from the sink backwards.
pub open spec fn path_head(path: Seq<(usize, usize)>, sink: int, k: int) -> int {
    if k == 0 {
        sink
    } else {
        path[k - 1].0 as int
    }
}

/// `path` lists, from the sink backwards, the edges `(tail, index)` of a path from `source` to
/// `sink` whose vertices are all distinct.
pub open spec fn path_ok(g: Seq<Seq<Edge>>, path: Seq<(usize, usize)>, source: int, sink: int) -> bool {
    &&& path.len() >= 1
    &&& 0 <= sink < g.len()
    &&& forall|k: int|
        0 <= k < path.len() ==> (#[trigger] path[k]).0 < g.len() && path[k].1 < g[path[k].0 as int].len() && g[path[k].0 as int][path[k].1 as int].to
            == path_head(path, sink, k)
    &&& path.last().0 == source
    &&& forall|k: int| 0 <= k < path.len() ==> (#[trigger] path[k]).0 != sink
    &&& forall|k: int, l: int| 0 <= k < l < path.len() ==> (#[trigger] path[k]).0 != (#[trigger] path[l]).0
}

/// The vertex reached from `v` by following `k` predecessor links, stopping where there is
/// none.
pub open spec fn back(prev: Seq<Option<(usize, usize)>>, v: int, k: int) -> int
    decreases k,
{
    if k <= 0 {
        v
    } else {
        let u = back(prev, v, k - 1);
        match prev[u] {
            Some(e) => e.0 as int,
            None => u,
        }
    }
}

/// The first `m` predecessor links from `v` exist and each leads to a vertex not met before.
#[verifier::opaque]
pub open spec fn fresh_links(prev: Seq<Option<(usize, usize)>>, v: int, m: int) -> bool {
    forall|j: int, i: int|
        #![trigger back(prev, v, j), back(prev, v, i)]
        0 <= i <= j < m ==> prev[back(prev, v, j)] is Some && back(prev, v, j + 1) != back(prev, v, i)
}

/// Following the links from `sink` for `m` steps (stopping after `n` steps, or where a link is
/// missing) meets only new vertices and ends at `source`.
pub open spec fn links_to(prev: Seq<Option<(usize, usize)>>, source: int, sink: int, n: int, m: int) -> bool {
    &&& 1 <= m <= n
    &&& fresh_links(prev, sink, m)
    &&& (m == n || prev[back(prev, sink, m)] is None)
    &&& back(prev, sink, m) == source
}

/// The links followed in the first `m` steps from `sink`.
pub open spec fn link_path(prev: Seq<Option<(usize, usize)>>, sink: int, m: int) -> Seq<(usize, usize)> {
    Seq::new(m as nat, |j: int| prev[back(prev, sink, j)].unwrap())
}

proof fn lemma_fresh_extend(pr: Seq<Option<(usize, usize)>>, si: int, len: int)
    requires
        0 <= len,
        fresh_links(pr, si, len),
        pr[back(pr, si, len)] is Some,
        forall|i: int| 0 <= i <= len ==> back(pr, si, len + 1) != #[trigger] back(pr, si, i),
    ensures
        fresh_links(pr, si, len + 1),
{
    reveal(fresh_links);
    assert forall|j: int, i: int|
        #![trigger back(pr, si, j), back(pr, si, i)]
        0 <= i <= j < len + 1 implies pr[back(pr, si, j)] is Some && back(pr, si, j + 1) != back(pr, si, i) by {
        if j < len {
            assert(pr[back(pr, si, j)] is Some && back(pr, si, j + 1) != back(pr, si, i));
        }
    }
}

/// When the next link returns to a vertex already met, no run of links ends well.
proof fn lemma_links_repeat(pr: Seq<Option<(usize, usize)>>, source: int, si: int, n: int, len: int, i0: int)
    requires
        0 <= len < n,
        fresh_links(pr, si, len),
        pr[back(pr, si, len)] is Some,
        0 <= i0 <= len,
        back(pr, si, len + 1) == back(pr, si, i0),
    ensures
        forall|m: int| !#[trigger] links_to(pr, source, si, n, m),
{
    reveal(fresh_links);
    assert forall|m: int| !#[trigger] links_to(pr, source, si, n, m) by {
        if links_to(pr, source, si, n, m) {
            if m > len {
                assert(back(pr, si, len + 1) != back(pr, si, i0));
            } else if m < len {
                assert(pr[back(pr, si, m)] is Some && back(pr, si, m + 1) != back(pr, si, m));
            }
        }
    }
}

/// When the links stop after `len` fresh steps (a missing link, or `n` steps), no other run
/// length ends well.
proof fn lemma_links_end(pr: Seq<Option<(usize, usize)>>, source: int, si: int, n: int, len: int)
    requires
        0 <= len <= n,
        fresh_links(pr, si, len),
        len == n || pr[back(pr, si, len)] is None,
    ensures
        forall|m: int| m != len ==> !#[trigger] links_to(pr, source, si, n, m),
{
    reveal(fresh_links);
    assert forall|m: int| m != len implies !#[trigger] links_to(pr, source, si, n, m) by {
        if links_to(pr, source, si, n, m) {
            if m < len {
                assert(pr[back(pr, si, m)] is Some && back(pr, si, m + 1) != back(pr, si, m));
            } else {
                assert(pr[back(pr, si, len)] is Some && back(pr, si, len + 1) != back(pr, si, len));
            }
        }
    }
}

/// `r` is the path the links give from `sink` back to `source` when there is one (as
/// `links_to` says), and `None` otherwise.
#[verifier::opaque]
pub open spec fn follows_links(prev: Seq<Option<(usize, usize)>>, source: int, sink: int, n: int, r: Option<Seq<(usize, usize)>>) -> bool {
    &&& (r is Some <==> exists|m: int| #[trigger] links_to(prev, source, sink, n, m))
    &&& (r is Some ==> exists|m: int| #[trigger] links_to(prev, source, sink, n, m) && r.unwrap() == link_path(prev, sink, m))
}

/// The path from `source` to `sink` given by the predecessor links, if following them from
/// `sink` ends at `source` without repeating a vertex.
#[verifier::spinoff_prover]
#[verifier::rlimit(60)]
fn find_path(g: &Vec<Vec<Edge>>, prev: &Vec<Option<(usize, usize)>>, source: usize, sink: usize) -> (r: Option<Vec<(usize, usize)>>)
    requires
        prev_ok(rows(g@), prev@),
        source < g@.len(),
        sink < g@.len(),
        source != sink,
    ensures
        r is Some ==> path_ok(rows(g@), r.unwrap()@, source as int, sink as int),
        follows_links(prev@, source as int, sink as int, g@.len() as int, match r {
            Some(p) => Some(p@),
            None => None,
        }),
{
    let ghost gs = rows(g@);
    let ghost pr = prev@;
    let ghost si = sink as int;
    let n = g.len();
    let mut seen: Vec<bool> = Vec::new();
    for k in 0..n
        invariant
            seen@.len() == k,
            forall|u: int| 0 <= u < k ==> !seen@[u],
    {
        seen.push(false);
    }
    let ghost blank = seen@;
    seen.set(sink, true);
    let mut path: Vec<(usize, usize)> = Vec::new();
    let mut v = sink;
    proof {
        assert forall|u: int| 0 <= u < n && #[trigger] seen@[u] implies exists|i: int| 0 <= i <= 0 && back(pr, si, i) == u by {
            if u != sink {
                assert(seen@[u] == blank[u]);
            }
            assert(back(pr, si, 0) == si);
        }
        reveal(fresh_links);
    }
    while path.len() < n
        invariant
            path@.len() <= n,
            forall|i: int| 0 <= i <= path@.len() ==> 0 <= #[trigger] back(pr, si, i) < n,
            gs == rows(g@),
            pr == prev@,
            si == sink,
            n == gs.len(),
            prev_ok(gs, prev@),
            source < n,
            sink < n,
            source != sink,
            v < n,
            seen@.len() == n,
            seen@[v as int],
            seen@[sink as int],
            v == path_head(path@, sink as int, path@.len() as int),
            v == back(pr, si, path@.len() as int),
            path@ == link_path(pr, si, path@.len() as int),
            fresh_links(pr, si, path@.len() as int),
            forall|i: int| 0 <= i <= path@.len() ==> #[trigger] seen@[back(pr, si, i)],
            forall|u: int| 0 <= u < n && #[trigger] seen@[u] ==> exists|i: int| 0 <= i <= path@.len() && back(pr, si, i) == u,
            forall|k: int|
                0 <= k < path@.len() ==> (#[trigger] path@[k]).0 < n && path@[k].1 < gs[path@[k].0 as int].len()
                    && gs[path@[k].0 as int][path@[k].1 as int].to == path_head(path@, sink as int, k),
            forall|k: int| 0 <= k < path@.len() ==> (#[trigger] path@[k]).0 != sink && seen@[path@[k].0 as int],
            forall|k: int, l: int| 0 <= k < l < path@.len() ==> (#[trigger] path@[k]).0 != (#[trigger] path@[l]).0,
            forall|u: int| 0 <= u < n && #[trigger] seen@[u] ==> u == sink || exists|k: int| 0 <= k < path@.len() && path@[k].0 == u,
        ensures
            path@.len() == n || prev@[v as int] is None,
        decreases n - path@.len(),
    {
        match prev[v] {
            None => {
                break;
            },
            Some(pe) => {
                let pv = pe.0;
                let ghost len = path@.len() as int;
                proof {
                    assert(back(pr, si, len + 1) == pv);
                }
                if seen[pv] {
                    proof {
                        let i0 = choose|i: int| 0 <= i <= len && back(pr, si, i) == pv;
                        lemma_links_repeat(pr, source as int, si, n as int, len, i0);
                        reveal(follows_links);
                    }
                    return None;
                }
                let ghost old_path = path@;
                let ghost old_seen = seen@;
                seen.set(pv, true);
                path.push(pe);
                proof {
                    assert(path@.len() == old_path.len() + 1);
                    assert(path@ =~= link_path(pr, si, len + 1));
                    assert forall|i: int| 0 <= i <= len implies back(pr, si, len + 1) != #[trigger] back(pr, si, i) by {
                        assert(old_seen[back(pr, si, i)]);
                    }
                    lemma_fresh_extend(pr, si, len);
                    assert forall|i: int| 0 <= i <= len + 1 implies #[trigger] seen@[back(pr, si, i)] by {
                        if i <= len {
                            assert(old_seen[back(pr, si, i)]);
                            assert(0 <= back(pr, si, i) < n);
                        }
                    }
                    assert forall|i: int| 0 <= i <= len + 1 implies 0 <= #[trigger] back(pr, si, i) < n by {
                        if i <= len {
                            assert(0 <= back(pr, si, i) < n);
                        }
                    }
                    assert forall|u: int| 0 <= u < n && #[trigger] seen@[u] implies exists|i: int| 0 <= i <= len + 1 && back(pr, si, i) == u by {
                        if u != pv {
                            assert(old_seen[u]);
                            let i = choose|i: int| 0 <= i <= len && back(pr, si, i) == u;
                        }
                    }
                    assert forall|k: int| 0 <= k < path@.len() implies (#[trigger] path@[k]).0 < n && path@[k].1 < gs[path@[k].0 as int].len()
                        && gs[path@[k].0 as int][path@[k].1 as int].to == path_head(path@, sink as int, k) by {
                        if k < old_path.len() {
                            assert(path@[k] == old_path[k]);
                            if k > 0 {
                                assert(path@[k - 1] == old_path[k - 1]);
                            }
                        }
                    }
                    assert forall|k: int, l: int| 0 <= k < l < path@.len() implies (#[trigger] path@[k]).0 != (#[trigger] path@[l]).0 by {
                        if l == old_path.len() {
                            assert(old_seen[path@[k].0 as int]);
                        }
                    }
                    assert forall|u: int| 0 <= u < n && #[trigger] seen@[u] implies u == sink || exists|k: int| 0 <= k < path@.len() && path@[k].0 == u by {
                        if u != pv {
                            assert(old_seen[u]);
                            if u != sink {
                                let k = choose|k: int| 0 <= k < old_path.len() && old_path[k].0 == u;
                                assert(path@[k] == old_path[k]);
                            }
                        } else {
                            assert(path@[old_path.len() as int].0 == u);
                        }
                    }
                }
                v = pv;
            },
        }
    }
    let ghost len = path@.len() as int;
    proof {
        lemma_links_end(pr, source as int, si, n as int, len);
    }
    if path.len() == 0 || v != source {
        proof {
            assert(!links_to(pr, source as int, si, n as int, len));
            reveal(follows_links);
        }
        return None;
    }
    proof {
        assert(links_to(pr, source as int, si, n as int, len));
        reveal(follows_links);
    }
    Some(path)
}

/// The state after pushing `d` along the first `k` steps of a path: the rows of the later
/// tails are untouched, and `d` units moved from the last tail pushed to the sink.
pub open spec fn augmented_upto(
    g0: Seq<Seq<Edge>>,
    g: Seq<Seq<Edge>>,
    path: Seq<(usize, usize)>,
    k: int,
    d: int,
    sink: int,
) -> bool {
    &&& graph_ok(g)
    &&& same_shape(g0, g)
    &&& forall|j: int| k <= j < path.len() ==> #[trigger] g[path[j].0 as int] == g0[path[j].0 as int]
    &&& forall|u: int|
        0 <= u < g0.len() ==> #[trigger] net(g, u) == net(g0, u) + (if k > 0 && u == path[k - 1].0 { d } else { 0 }) - (
        if k > 0 && u == sink { d } else { 0 })
}

proof fn lemma_augment_step(
    g0: Seq<Seq<Edge>>,
    g1: Seq<Seq<Edge>>,
    path: Seq<(usize, usize)>,
    k: int,
    d: int,
    source: int,
    sink: int,
)
    requires
        graph_ok(g0),
        path_ok(g0, path, source, sink),
        0 <= k < path.len(),
        0 <= d,
        forall|j: int| 0 <= j < path.len() ==> d <= #[trigger] g0[path[j].0 as int][path[j].1 as int].cap - g0[path[j].0 as int][path[j].1 as int].flow,
        augmented_upto(g0, g1, path, k, d, sink),
    ensures
        augmented_upto(g0, push_flow(g1, path[k].0 as int, path[k].1 as int, d), path, k + 1, d, sink),
{
    let pv = path[k].0 as int;
    let pei = path[k].1 as int;
    assert(g1[pv] == g0[pv]);
    lemma_push_flow(g1, pv, pei, d);
    let g2 = push_flow(g1, pv, pei, d);
    lemma_same_shape_trans(g0, g1, g2);
    let h = path_head(path, sink, k);
    assert(g0[pv][pei].to == h);
    assert forall|j: int| k + 1 <= j < path.len() implies #[trigger] g2[path[j].0 as int] == g0[path[j].0 as int] by {
        assert(path[j].0 != path[k].0);
        if k == 0 {
            assert(path[j].0 != sink);
        } else {
            assert(path[j].0 != path[k - 1].0);
        }
        assert(g1[path[j].0 as int] == g0[path[j].0 as int]);
    }
    assert forall|u: int| 0 <= u < g0.len() implies #[trigger] net(g2, u) == net(g0, u) + (if k + 1 > 0 && u == path[k].0 { d } else { 0 })
        - (if k + 1 > 0 && u == sink { d } else { 0 }) by {
        assert(net(g1, u) == net(g0, u) + (if k > 0 && u == path[k - 1].0 { d } else { 0 }) - (if k > 0 && u == sink { d } else { 0 }));
        assert(net(g2, u) == net(g1, u) + (if u == pv { d } else { 0 }) - (if u == h { d } else { 0 }));
        assert(path[k].0 != sink);
    }
}

/// Send `d` units along a path from `source` to `sink`, listed from the sink backwards.
#[verifier::spinoff_prover]
#[verifier::rlimit(30)]
fn augment(g: &mut Vec<Vec<Edge>>, path: &Vec<(usize, usize)>, d: i64, Ghost(source): Ghost<int>, Ghost(sink): Ghost<int>)
    requires
        graph_ok(rows(old(g)@)),
        path_ok(rows(old(g)@), path@, source, sink),
        source != sink,
        d >= 0,
        forall|k: int|
            0 <= k < path@.len() ==> d <= #[trigger] rows(old(g)@)[path@[k].0 as int][path@[k].1 as int].cap - rows(
                old(g)@,
            )[path@[k].0 as int][path@[k].1 as int].flow,
    ensures
        graph_ok(rows(final(g)@)),
        same_shape(rows(old(g)@), rows(final(g)@)),
        moved(rows(old(g)@), rows(final(g)@), source, sink, d as int),
        graph_cost(rows(final(g)@)) == graph_cost(rows(old(g)@)) + 2 * d * path_cost(rows(old(g)@), path@),
{
    let ghost g0 = rows(g@);
    let m = path.len();
    for k in 0..m
        invariant
            g0 == rows(old(g)@),
            graph_ok(g0),
            path_ok(g0, path@, source, sink),
            m == path@.len(),
            source != sink,
            d >= 0,
            forall|j: int|
                0 <= j < path@.len() ==> d <= #[trigger] g0[path@[j].0 as int][path@[j].1 as int].cap - g0[path@[j].0 as int][path@[j].1 as int].flow,
            augmented_upto(g0, rows(g@), path@, k as int, d as int, sink),
            graph_cost(rows(g@)) == graph_cost(g0) + 2 * d * path_cost_upto(g0, path@, k as int),
    {
        let ghost g1 = rows(g@);
        let (pv, pei) = path[k];
        proof {
            lemma_augment_step(g0, g1, path@, k as int, d as int, source, sink);
            lemma_push_cost(g1, pv as int, pei as int, d as int);
            let c = g0[pv as int][pei as int].cost;
            let pc = path_cost_upto(g0, path@, k as int);
            assert(path_cost_upto(g0, path@, k + 1) == pc + c);
            assert(2 * d * (pc + c) == 2 * d * pc + 2 * d * c) by (nonlinear_arith);
            assert(g1[pv as int] == g0[pv as int]);
            assert(pair_ok(g1, pv as int, pei as int));
            assert(pair_ok(g1, g1[pv as int][pei as int].to as int, g1[pv as int][pei as int].rev_idx as int));
        }
        let mut fe = g[pv][pei];
        fe.flow = fe.flow + d;
        g[pv].set(pei, fe);
        let to = fe.to;
        let rev_idx = fe.rev_idx;
        let mut re = g[to][rev_idx];
        re.flow = re.flow - d;
        g[to].set(rev_idx, re);
        proof {
            assert(rows(g@) =~= push_flow(g1, pv as int, pei as int, d as int));
        }
    }
    proof {
        assert(path@.last().0 == source);
        assert forall|u: int| 0 <= u < g0.len() implies #[trigger] net(rows(g@), u) == net(g0, u) + (if u == source { d as int } else { 0 })
            - (if u == sink { d as int } else { 0 }) by {
            assert(path@[m - 1].0 == source);
        }
    }
}

/// Distances from `source` over residual edges by repeated relaxation of every edge, with the
/// edge each distance came through. The rounds stop once nothing changes; they are at most
/// the number of vertices, which is enough when no cycle of negative cost is reachable. A relaxation whose sum would leave `i64` is skipped.
fn bellman_ford(g: &Vec<Vec<Edge>>, source: usize) -> (r: (Vec<Option<i64>>, Vec<Option<(usize, usize)>>))
    requires
        graph_ok(rows(g@)),
        source < g@.len(),
    ensures
        r.0@.len() == g@.len(),
        prev_ok(rows(g@), r.1@),
{
    let ghost gs = rows(g@);
    let n = g.len();
    let mut dist: Vec<Option<i64>> = Vec::new();
    let mut prev: Vec<Option<(usize, usize)>> = Vec::new();
    for k in 0..n
        invariant
            dist@.len() == k,
            prev@.len() == k,
            forall|u: int| 0 <= u < k ==> prev@[u] is None,
    {
        dist.push(None);
        prev.push(None);
    }
    dist.set(source, Some(0));
    let mut update = true;
    let mut rounds: usize = 0;
    while update && rounds < n
        invariant
            gs == rows(g@),
            n == gs.len(),
            graph_ok(gs),
            dist@.len() == n,
            prev_ok(gs, prev@),
        decreases n - rounds,
    {
        update = false;
        for v in 0..n
            invariant
                gs == rows(g@),
                n == gs.len(),
                graph_ok(gs),
                dist@.len() == n,
                prev_ok(gs, prev@),
        {
            if let Some(dv) = dist[v] {
                let deg = g[v].len();
                for ei in 0..deg
                    invariant
                        gs == rows(g@),
                        n == gs.len(),
                        graph_ok(gs),
                        v < n,
                        deg == gs[v as int].len(),
                        dist@.len() == n,
                        prev_ok(gs, prev@),
                {
                    let e = g[v][ei];
                    proof {
                        assert(gs[v as int][ei as int] == e);
                        assert(pair_ok(gs, v as int, ei as int));
                    }
                    if e.flow < e.cap {
                        if let Some(nd) = dv.checked_add(e.cost) {
                            let better = match dist[e.to] {
                                None => true,
                                Some(cur) => nd < cur,
                            };
                            if better {
                                dist.set(e.to, Some(nd));
                                prev.set(e.to, Some((v, ei)));
                                update = true;
                            }
                        }
                    }
                }
            }
        }
        rounds = rounds + 1;
    }
    (dist, prev)
}

proof fn lemma_residual_range(g: Seq<Seq<Edge>>, v: int, i: int)
    requires
        graph_ok(g),
        0 <= v < g.len(),
        0 <= i < g[v].len(),
    ensures
        0 <= g[v][i].cap - g[v][i].flow <= i64::MAX,
{
    assert(pair_ok(g, v, i));
    let e = g[v][i];
    assert(pair_ok(g, e.to as int, e.rev_idx as int));
}

/// Reduced distances from `source` by Dijkstra's method with potentials `h`, each with the
/// edge it came through. The queue holds `(distance, vertex)` entries and hands out the least
/// distance first, among equal distances the greatest vertex; an entry whose distance is no
/// longer the vertex's is passed over. It hands out at most one entry more than there are
/// edges, which is enough when no reduced cost is negative. A relaxation whose sum would
/// leave `i64` is skipped.
fn dijkstra(g: &Vec<Vec<Edge>>, h: &Vec<i64>, source: usize) -> (r: (Vec<Option<i64>>, Vec<Option<(usize, usize)>>))
    requires
        graph_ok(rows(g@)),
        source < g@.len(),
        h@.len() == g@.len(),
    ensures
        r.0@.len() == g@.len(),
        prev_ok(rows(g@), r.1@),
{
    let ghost gs = rows(g@);
    let n = g.len();
    let mut dist: Vec<Option<i64>> = Vec::new();
    let mut prev: Vec<Option<(usize, usize)>> = Vec::new();
    let mut limit: usize = 1;
    for k in 0..n
        invariant
            gs == rows(g@),
            n == gs.len(),
            dist@.len() == k,
            prev@.len() == k,
            forall|u: int| 0 <= u < k ==> prev@[u] is None,
    {
        dist.push(None);
        prev.push(None);
        limit = limit.saturating_add(g[k].len());
    }
    dist.set(source, Some(0));
    let mut que: Vec<(i64, usize)> = Vec::new();
    que.push((0, source));
    let mut pops: usize = 0;
    while que.len() > 0 && pops < limit
        invariant
            gs == rows(g@),
            n == gs.len(),
            graph_ok(gs),
            h@.len() == n,
            dist@.len() == n,
            prev_ok(gs, prev@),
            forall|k: int| 0 <= k < que@.len() ==> (#[trigger] que@[k]).1 < n,
        decreases limit - pops,
    {
        let mut best: usize = 0;
        for k in 1..que.len()
            invariant
                best < que@.len(),
                k <= que@.len(),
                best < k,
        {
            if que[k].0 < que[best].0 || (que[k].0 == que[best].0 && que[k].1 > que[best].1) {
                best = k;
            }
        }
        let (d, v) = que.swap_remove(best);
        pops = pops + 1;
        let current = match dist[v] {
            None => false,
            Some(dv) => dv == d,
        };
        if current {
            let deg = g[v].len();
            for ei in 0..deg
                invariant
                    gs == rows(g@),
                    n == gs.len(),
                    graph_ok(gs),
                    v < n,
                    deg == gs[v as int].len(),
                    h@.len() == n,
                    dist@.len() == n,
                    prev_ok(gs, prev@),
                    forall|k: int| 0 <= k < que@.len() ==> (#[trigger] que@[k]).1 < n,
            {
                let e = g[v][ei];
                proof {
                    assert(gs[v as int][ei as int] == e);
                    assert(pair_ok(gs, v as int, ei as int));
                }
                if e.flow < e.cap {
                    let step = match d.checked_add(e.cost) {
                        None => None,
                        Some(x) => match x.checked_add(h[v]) {
                            None => None,
                            Some(y) => y.checked_sub(h[e.to]),
                        },
                    };
                    if let Some(nd) = step {
                        let better = match dist[e.to] {
                            None => true,
                            Some(cur) => nd < cur,
                        };
                        if better {
                            dist.set(e.to, Some(nd));
                            prev.set(e.to, Some((v, ei)));
                            que.push((nd, e.to));
                        }
                    }
                }
            }
        }
    }
    (dist, prev)
}

/// The flows of a slope increase strictly from above 0 and stay within `ub`.
pub open spec fn slope_ok(slope: Seq<(i64, i64)>, ub: int) -> bool {
    &&& forall|k: int| 0 <= k < slope.len() ==> 0 < (#[trigger] slope[k]).1 <= ub
    &&& forall|k: int, l: int| 0 <= k < l < slope.len() ==> (#[trigger] slope[k]).1 < (#[trigger] slope[l]).1
}

/// The flow reached at the end of a slope.
pub open spec fn last_flow(slope: Seq<(i64, i64)>) -> int {
    if slope.len() == 0 {
        0
    } else {
        slope.last().1 as int
    }
}

/// The total cost reached at the end of a slope.
pub open spec fn last_cost(slope: Seq<(i64, i64)>) -> int {
    if slope.len() == 0 {
        0
    } else {
        slope.last().0 as int
    }
}

/// The costs of `s2t` plus those of `ds`, paired with the flows of `ds`, as far as both go
/// and the sums stay within `i64`.
pub open spec fn combined(s2t: Seq<(i64, i64)>, ds: Seq<(i64, i64)>, r: Seq<(i64, i64)>) -> bool {
    let m = if s2t.len() < ds.len() { s2t.len() } else { ds.len() };
    &&& r.len() <= m
    &&& forall|k: int| 0 <= k < r.len() ==> #[trigger] r[k] == ((s2t[k].0 + ds[k].0) as i64, ds[k].1)
    &&& forall|k: int| 0 <= k < r.len() ==> i64::MIN <= #[trigger] s2t[k].0 + ds[k].0 <= i64::MAX
    &&& r.len() < m ==> !(i64::MIN <= s2t[r.len() as int].0 + ds[r.len() as int].0 <= i64::MAX)
}

/// The bound on the flows of a slope: `flow_ub` with negative costs, else `flow_lb`.
pub open spec fn slope_bound(neg: bool, lb: i64, ub: i64) -> int {
    if neg {
        ub as int
    } else {
        lb as int
    }
}

/// A run with lower bounds: `dst -> src` closes the cycle (giving `gc`), the slope `s1`
/// saturates the lower bounds between the extra vertices (giving `gm`), then the slope `s2`
/// goes from `src` to `dst` (giving `g`); the result combines the two slopes. The last cost
/// of each slope is the cost of the flow it added (half the change of `graph_cost`).
pub open spec fn cost_run(
    g0: Seq<Seq<Edge>>,
    src: int,
    dst: int,
    lbs: int,
    neg: bool,
    lb: i64,
    ub: i64,
    gm: Seq<Seq<Edge>>,
    s1: Seq<(i64, i64)>,
    s2: Seq<(i64, i64)>,
    r: Seq<(i64, i64)>,
    g: Seq<Seq<Edge>>,
) -> bool {
    let gc = with_edge(g0, dst, src, 1152921504606846976, 0);
    &&& same_shape(gc, gm)
    &&& moved(gc, gm, gc.len() - 2, gc.len() - 1, last_flow(s1))
    &&& slope_ok(s1, lbs)
    &&& 2 * last_cost(s1) == graph_cost(gm) - graph_cost(gc)
    &&& same_shape(gm, g)
    &&& moved(gm, g, src, dst, last_flow(s2))
    &&& slope_ok(s2, slope_bound(neg, lb, ub))
    &&& 2 * last_cost(s2) == graph_cost(g) - graph_cost(gm)
    &&& combined(s2, s1, r)
}

/// What a minimum-cost slope from `src` to `dst` does to the graph `g0`, giving `g`. Without
/// lower bounds, the slope's last cost is the cost of the flow it added: the sum of
/// `flow * cost` over the edges grew by it (half the change of `graph_cost`).
pub open spec fn slope_run(
    g0: Seq<Seq<Edge>>,
    lbs: int,
    neg: bool,
    g: Seq<Seq<Edge>>,
    src: int,
    dst: int,
    lb: i64,
    ub: i64,
    r: Seq<(i64, i64)>,
) -> bool {
    if lbs == 0 {
        &&& same_shape(g0, g)
        &&& moved(g0, g, src, dst, last_flow(r))
        &&& slope_ok(r, slope_bound(neg, lb, ub))
        &&& 2 * last_cost(r) == graph_cost(g) - graph_cost(g0)
    } else {
        exists|gm: Seq<Seq<Edge>>, s1: Seq<(i64, i64)>, s2: Seq<(i64, i64)>|
            #[trigger] cost_run(g0, src, dst, lbs, neg, lb, ub, gm, s1, s2, r, g)
    }
}

/// The last point of a slope, if its flow lies in `lb..=ub`.
pub open spec fn final_point(slope: Seq<(i64, i64)>, lb: i64, ub: i64) -> Option<(i64, i64)> {
    if slope.len() > 0 && lb <= slope.last().1 <= ub {
        Some(slope.last())
    } else {
        None
    }
}

/// A flow network on `n` vertices plus two extra vertices that carry the lower bounds.
pub struct Flow {
    pub g: Vec<Vec<Edge>>,
    flow_lb_sum: i64,
    neg_cost_any: bool,
}

impl Flow {
    /// The residual graph.
    pub closed spec fn graph(&self) -> Seq<Seq<Edge>> {
        rows(self.g@)
    }

    /// Sum of the lower bounds of the edges added with one.
    pub closed spec fn lower_bound_sum(&self) -> int {
        self.flow_lb_sum as int
    }

    /// Whether an edge with a negative cost was added.
    pub closed spec fn has_neg_cost(&self) -> bool {
        self.neg_cost_any
    }

    /// The residual graph is consistent, with the two extra vertices at its end.
    pub open spec fn well_formed(&self) -> bool {
        &&& graph_ok(self.graph())
        &&& self.graph().len() >= 2
        &&& self.lower_bound_sum() >= 0
    }

    /// A network of `n` vertices, with no edge.
    pub fn new(n: usize) -> (r: Self)
        requires
            n + 2 <= usize::MAX,
        ensures
            r.well_formed(),
            r.graph().len() == n + 2,
            forall|v: int| 0 <= v < n + 2 ==> (#[trigger] r.graph()[v]).len() == 0,
            graph_cost(r.graph()) == 0,
            r.lower_bound_sum() == 0,
            !r.has_neg_cost(),
    {
        let mut g: Vec<Vec<Edge>> = Vec::new();
        let mut k: usize = 0;
        while k < n + 2
            invariant
                k <= n + 2,
                n + 2 <= usize::MAX,
                g@.len() == k,
                forall|v: int| 0 <= v < k ==> (#[trigger] g@[v])@.len() == 0,
            decreases n + 2 - k,
        {
            g.push(Vec::new());
            k = k + 1;
        }
        let r = Flow { g, flow_lb_sum: 0, neg_cost_any: false };
        proof {
            lemma_empty_rows_cost(r.graph(), r.graph().len() as int);
        }
        r
    }

    /// Add an edge `from -> to` with capacity `cap` and cost `cost`, paired with its reverse
    /// edge of capacity 0 and cost `-cost`.
    pub fn add_cost_edge(&mut self, from: usize, to: usize, cap: i64, cost: i64)
        requires
            old(self).well_formed(),
            from < old(self).graph().len(),
            to < old(self).graph().len(),
            from != to,
            cap >= 0,
            cost > i64::MIN,
        ensures
            final(self).well_formed(),
            final(self).graph().len() == old(self).graph().len(),
            final(self).graph() == with_edge(old(self).graph(), from as int, to as int, cap, cost),
            graph_cost(final(self).graph()) == graph_cost(old(self).graph()),
            final(self).lower_bound_sum() == old(self).lower_bound_sum(),
            final(self).has_neg_cost() == (old(self).has_neg_cost() || cost < 0),
    {
        let ghost g0 = self.graph();
        proof {
            lemma_with_edge_cost(g0, from as int, to as int, cap, cost);
        }
        let rev_idx = self.g[to].len();
        let fwd_idx = self.g[from].len();
        self.g[from].push(Edge { to, rev_idx, cap, flow: 0, cost });
        self.g[to].push(Edge { to: from, rev_idx: fwd_idx, cap: 0, flow: 0, cost: -cost });
        proof {
            assert(self.graph() =~= with_edge(g0, from as int, to as int, cap, cost));
            lemma_add_pair(
                g0,
                self.graph(),
                from as int,
                to as int,
                Edge { to, rev_idx, cap, flow: 0, cost },
                Edge { to: from, rev_idx: fwd_idx, cap: 0, flow: 0, cost: (-cost) as i64 },
            );
        }
        if cost < 0 {
            self.neg_cost_any = true;
        }
    }

    /// Add an edge `from -> to` with capacity `cap` and cost 0.
    pub fn add_edge(&mut self, from: usize, to: usize, cap: i64)
        requires
            old(self).well_formed(),
            from < old(self).graph().len(),
            to < old(self).graph().len(),
            from != to,
            cap >= 0,
        ensures
            final(self).well_formed(),
            final(self).graph() == with_edge(old(self).graph(), from as int, to as int, cap, 0),
            graph_cost(final(self).graph()) == graph_cost(old(self).graph()),
            final(self).lower_bound_sum() == old(self).lower_bound_sum(),
            final(self).has_neg_cost() == old(self).has_neg_cost(),
    {
        self.add_cost_edge(from, to, cap, 0);
    }

    /// Add an edge `from -> to` whose flow must lie in `cap_min..=cap_max`, with cost 0.
    pub fn add_flowbound_edge(&mut self, from: usize, to: usize, cap_min: i64, cap_max: i64)
        requires
            old(self).well_formed(),
            from < old(self).graph().len() - 2,
            to < old(self).graph().len() - 2,
            from != to,
            0 <= cap_max - cap_min <= i64::MAX,
            cap_min > 0 ==> old(self).lower_bound_sum() + cap_min <= i64::MAX,
        ensures
            final(self).well_formed(),
            final(self).graph() == with_bounded_edge(old(self).graph(), from as int, to as int, cap_min, cap_max, 0),
            graph_cost(final(self).graph()) == graph_cost(old(self).graph()),
            final(self).lower_bound_sum() == old(self).lower_bound_sum() + if cap_min > 0 { cap_min as int } else { 0 },
            final(self).has_neg_cost() == old(self).has_neg_cost(),
    {
        self.add_flowbound_cost_edge(from, to, cap_min, cap_max, 0);
    }

    /// Add an edge `from -> to` whose flow must lie in `cap_min..=cap_max`, with cost `cost`:
    /// the edge keeps `cap_max - cap_min`, and the lower bound `cap_min` goes through the two
    /// extra vertices.
    pub fn add_flowbound_cost_edge(&mut self, from: usize, to: usize, cap_min: i64, cap_max: i64, cost: i64)
        requires
            old(self).well_formed(),
            from < old(self).graph().len() - 2,
            to < old(self).graph().len() - 2,
            from != to,
            0 <= cap_max - cap_min <= i64::MAX,
            cap_min > 0 ==> old(self).lower_bound_sum() + cap_min <= i64::MAX,
            cost > i64::MIN,
        ensures
            final(self).well_formed(),
            final(self).graph() == with_bounded_edge(old(self).graph(), from as int, to as int, cap_min, cap_max, cost),
            graph_cost(final(self).graph()) == graph_cost(old(self).graph()),
            final(self).lower_bound_sum() == old(self).lower_bound_sum() + if cap_min > 0 { cap_min as int } else { 0 },
            final(self).has_neg_cost() == (old(self).has_neg_cost() || cost < 0),
    {
        self.add_cost_edge(from, to, cap_max - cap_min, cost);
        if cap_min > 0 {
            self.flow_lb_sum = self.flow_lb_sum + cap_min;
            let dummy_src = self.g.len() - 2;
            self.add_cost_edge(dummy_src, to, cap_min, cost);
            let dummy_dst = self.g.len() - 1;
            self.add_cost_edge(from, dummy_dst, cap_min, cost);
        }
    }

    /// Push flow from `source` to `sink` by Dinic's method (level graphs and blocking flows)
    /// until `sink` cannot be reached by residual edges; returns the amount pushed.
    fn max_flow_impl(&mut self, source: usize, sink: usize) -> (flow: i64)
        requires
            old(self).well_formed(),
            source < old(self).graph().len(),
            sink < old(self).graph().len(),
            source != sink,
            cap_sum(old(self).graph()[source as int]) - net(old(self).graph(), source as int) <= i64::MAX,
        ensures
            final(self).well_formed(),
            same_shape(old(self).graph(), final(self).graph()),
            final(self).lower_bound_sum() == old(self).lower_bound_sum(),
            final(self).has_neg_cost() == old(self).has_neg_cost(),
            flow >= 0,
            moved(old(self).graph(), final(self).graph(), source as int, sink as int, flow as int),
            !reaches(final(self).graph(), source as int, sink as int),
    {
        let ghost g0 = self.graph();
        let ghost c = cap_sum(g0[source as int]);
        let ghost net0 = net(g0, source as int);
        let n = self.g.len();
        let inf: i64 = 1152921504606846976;
        let mut flow: i64 = 0;
        proof {
            lemma_net_le_cap(g0, self.graph(), source as int);
        }
        loop
            invariant
                self.well_formed(),
                n == self.graph().len(),
                source < n,
                sink < n,
                source != sink,
                same_shape(g0, self.graph()),
                self.lower_bound_sum() == old(self).lower_bound_sum(),
                self.has_neg_cost() == old(self).has_neg_cost(),
                c == cap_sum(g0[source as int]),
                c - net0 <= i64::MAX,
                net0 == net(g0, source as int),
                flow >= 0,
                inf == 1152921504606846976,
                moved(g0, self.graph(), source as int, sink as int, flow as int),
                net(self.graph(), source as int) <= c,
            ensures
                !reaches(self.graph(), source as int, sink as int),
            decreases c - net(self.graph(), source as int),
        {
            let level = bfs(&self.g, source);
            if level[sink].is_none() {
                proof {
                    let gs = self.graph();
                    if reaches(gs, source as int, sink as int) {
                        let p = choose|p: Seq<int>| #[trigger] walk(gs, p) && p.len() >= 2 && p[0] == source && p.last() == sink;
                        lemma_walk_labelled(gs, level@, p, p.len() - 1);
                    }
                }
                break;
            }
            let ghost gb = self.graph();
            proof {
                lemma_sink_alive(gb, level@, source as int, sink as int);
            }
            let mut search_cnt: Vec<usize> = Vec::new();
            for k in 0..n
                invariant
                    search_cnt@.len() == k,
                    forall|u: int| 0 <= u < k ==> #[trigger] search_cnt@[u] == 0,
            {
                search_cnt.push(0);
            }
            let f0 = flow;
            loop
                invariant
                    self.well_formed(),
                    n == self.graph().len(),
                    source < n,
                    sink < n,
                    source != sink,
                    search_cnt@.len() == n,
                    level@.len() == n,
                    level@[source as int] is Some,
                    inf == 1152921504606846976,
                    same_shape(g0, self.graph()),
                    self.lower_bound_sum() == old(self).lower_bound_sum(),
                    self.has_neg_cost() == old(self).has_neg_cost(),
                    c == cap_sum(g0[source as int]),
                    c - net0 <= i64::MAX,
                    net0 == net(g0, source as int),
                    flow >= f0 >= 0,
                    moved(g0, self.graph(), source as int, sink as int, flow as int),
                    net(self.graph(), source as int) <= c,
                    skipped_dead(self.graph(), level@, sink as int, search_cnt@),
                    flow == f0 ==> self.graph() == gb && forall|u: int| 0 <= u < n ==> #[trigger] search_cnt@[u] == 0,
                    !dead(gb, level@, sink as int, source as int),
                ensures
                    flow > f0,
                decreases c - net(self.graph(), source as int),
            {
                let ghost g1 = self.graph();
                let additional_flow = dfs(&mut self.g, source, sink, inf, &mut search_cnt, &level);
                proof {
                    lemma_same_shape_trans(g0, g1, self.graph());
                    lemma_moved_step(g0, g1, self.graph(), source as int, sink as int, flow as int, additional_flow as int);
                    lemma_net_le_cap(g0, self.graph(), source as int);
                }
                if additional_flow > 0 {
                    flow = flow + additional_flow;
                } else {
                    break;
                }
            }
            if flow == f0 {
                // A phase whose search labelled the sink always pushes some flow.
                proof {
                    assert(false);
                }
                break;
            }
        }
        flow
    }

    /// Maximum flow from `src` to `dst`. With lower bounds on some edges, an edge `dst -> src`
    /// of huge capacity closes the cycle, the lower bounds are first saturated through the two
    /// extra vertices, and `None` is returned when they cannot be.
    pub fn max_flow(&mut self, src: usize, dst: usize) -> (r: Option<i64>)
        requires
            old(self).well_formed(),
            src < old(self).graph().len(),
            dst < old(self).graph().len(),
            src != dst,
            cap_sum(old(self).graph()[src as int]) - net(old(self).graph(), src as int) <= i64::MAX,
            old(self).lower_bound_sum() != 0 ==> src < old(self).graph().len() - 2 && dst < old(self).graph().len() - 2
                && cap_sum(old(self).graph()[old(self).graph().len() - 2]) - net(
                old(self).graph(),
                old(self).graph().len() - 2,
            ) <= i64::MAX,
        ensures
            final(self).well_formed(),
            final(self).lower_bound_sum() == old(self).lower_bound_sum(),
            final(self).has_neg_cost() == old(self).has_neg_cost(),
            old(self).lower_bound_sum() == 0 ==> r is Some && r.unwrap() >= 0 && same_shape(old(self).graph(), final(self).graph())
                && moved(old(self).graph(), final(self).graph(), src as int, dst as int, r.unwrap() as int),
            old(self).lower_bound_sum() != 0 ==> exists|gm: Seq<Seq<Edge>>, f1: int|
                #[trigger] bounded_run(old(self).graph(), src as int, dst as int, old(self).lower_bound_sum(), gm, f1, r, final(self).graph()),
            r is Some ==> !reaches(final(self).graph(), src as int, dst as int),
            old(self).lower_bound_sum() == 0 && (forall|u: int| 0 <= u < old(self).graph().len() ==> #[trigger] net(old(self).graph(), u) == 0)
                ==> r.unwrap() == cut_capacity(final(self).graph(), src as int),
    {
        if self.flow_lb_sum == 0 {
            let ghost g0 = self.graph();
            let f = self.max_flow_impl(src, dst);
            proof {
                if forall|u: int| 0 <= u < g0.len() ==> #[trigger] net(g0, u) == 0 {
                    let g = self.graph();
                    assert forall|u: int| 0 <= u < g.len() && u != src && u != dst implies #[trigger] net(g, u) == 0 by {
                        assert(net(g0, u) == 0);
                    }
                    assert(net(g0, src as int) == 0);
                    lemma_flow_equals_cut(g, src as int, dst as int);
                }
            }
            return Some(f);
        }
        let ghost g0 = self.graph();
        let dummy_src = self.g.len() - 2;
        let dummy_dst = self.g.len() - 1;
        self.add_edge(dst, src, 1152921504606846976);
        let ghost gc = self.graph();
        proof {
            lemma_flow_sum_push(g0[src as int], gc[src as int].last());
            assert(gc[src as int] == g0[src as int].push(gc[src as int].last()));
            assert(gc[dummy_src as int] == g0[dummy_src as int]);
        }
        let f1 = self.max_flow_impl(dummy_src, dummy_dst);
        let ghost gm = self.graph();
        if f1 != self.flow_lb_sum {
            proof {
                assert(same_shape(gc, gm) && moved(gc, gm, gc.len() - 2, gc.len() - 1, f1 as int));
            }
            proof {
                assert(bounded_run(g0, src as int, dst as int, self.flow_lb_sum as int, gm, f1 as int, None, self.graph()));
            }
            return None;
        }
        proof {
            assert(net(gm, src as int) == net(gc, src as int));
            assert(cap_sum(gm[src as int]) == cap_sum(gc[src as int])) by {
                lemma_cap_sum_same(gc[src as int], gm[src as int]);
            }
        }
        let f2 = self.max_flow_impl(src, dst);
        proof {
            assert(bounded_run(g0, src as int, dst as int, self.flow_lb_sum as int, gm, f1 as int, Some(f2), self.graph()));
        }
        Some(f2)
    }

    /// The vertices (among the first `n`) that `src` reaches by at least one residual edge: the
    /// side of `src` in a minimum cut once a maximum flow is pushed.
    pub fn min_cut_split(&self, src: usize) -> (split: Vec<bool>)
        requires
            self.well_formed(),
            src < self.graph().len(),
            forall|u: int, i: int|
                #![trigger self.graph()[u][i]]
                0 <= u < self.graph().len() && 0 <= i < self.graph()[u].len() && (u == src || reaches(self.graph(), src as int, u))
                    && residual(self.graph()[u][i]) ==> self.graph()[u][i].to < self.graph().len() - 2,
        ensures
            split@.len() == self.graph().len() - 2,
            forall|u: int| 0 <= u < split@.len() ==> (#[trigger] split@[u] <==> reaches(self.graph(), src as int, u)),
    {
        let ghost gs = self.graph();
        let level = bfs(&self.g, src);
        let n = self.g.len();
        let nm = n - 2;
        let mut back_to_src = false;
        for u in 0..n
            invariant
                gs == self.graph(),
                n == gs.len(),
                src < n,
                level@.len() == n,
                back_to_src <==> exists|w: int, i: int|
                    #![trigger gs[w][i]]
                    0 <= w < u && 0 <= i < gs[w].len() && level@[w] is Some && gs[w][i].to == src && residual(gs[w][i]),
        {
            if level[u].is_some() {
                let deg = self.g[u].len();
                for i in 0..deg
                    invariant
                        gs == self.graph(),
                        n == gs.len(),
                        u < n,
                        src < n,
                        level@.len() == n,
                        deg == gs[u as int].len(),
                        level@[u as int] is Some,
                        back_to_src <==> (exists|w: int, j: int|
                            #![trigger gs[w][j]]
                            0 <= w < u && 0 <= j < gs[w].len() && level@[w] is Some && gs[w][j].to == src && residual(gs[w][j]))
                            || (exists|j: int| 0 <= j < i && #[trigger] gs[u as int][j].to == src && residual(gs[u as int][j])),
                {
                    let e = self.g[u][i];
                    assert(gs[u as int][i as int] == e);
                    if e.to == src && e.flow < e.cap {
                        back_to_src = true;
                    }
                }
            }
        }
        let mut split: Vec<bool> = Vec::new();
        for u in 0..nm
            invariant
                gs == self.graph(),
                n == gs.len(),
                nm == n - 2,
                src < n,
                level@.len() == n,
                levels_closed(gs, level@),
                levels_sound(gs, level@, src as int),
                back_to_src <==> exists|w: int, i: int|
                    #![trigger gs[w][i]]
                    0 <= w < n && 0 <= i < gs[w].len() && level@[w] is Some && gs[w][i].to == src && residual(gs[w][i]),
                split@.len() == u,
                forall|x: int| 0 <= x < u ==> (#[trigger] split@[x] <==> reaches(gs, src as int, x)),
        {
            let mark = if u == src {
                back_to_src
            } else {
                level[u].is_some()
            };
            proof {
                if u == src {
                    lemma_reaches_source(gs, level@, src as int);
                } else {
                    if level@[u as int] is Some {
                        lemma_labelled_reached(gs, level@, src as int, u as int);
                    }
                    if reaches(gs, src as int, u as int) {
                        let p = choose|p: Seq<int>| #[trigger] walk(gs, p) && p.len() >= 2 && p[0] == src && p.last() == u;
                        lemma_walk_labelled(gs, level@, p, p.len() - 1);
                    }
                }
            }
            split.push(mark);
        }
        split
    }

    /// Successive shortest paths by repeated relaxation (for networks with negative costs):
    /// while `sink` is reachable, push along a cheapest path, as much as the path and `flow_ub`
    /// allow, and stop once at least `flow_lb` units flow and the cheapest path costs more than
    /// 0. Each step adds `(total cost, total flow)` to the slope, the total cost growing by the
    /// units pushed times the cost of the path's edges (a step whose cost would leave `i64`
    /// ends the run).
    #[verifier::spinoff_prover]
    fn min_negcost_slope(&mut self, source: usize, sink: usize, flow_lb: i64, flow_ub: i64) -> (slope: Vec<(i64, i64)>)
        requires
            old(self).well_formed(),
            source < old(self).graph().len(),
            sink < old(self).graph().len(),
            source != sink,
            flow_ub >= 0,
        ensures
            final(self).well_formed(),
            same_shape(old(self).graph(), final(self).graph()),
            final(self).lower_bound_sum() == old(self).lower_bound_sum(),
            final(self).has_neg_cost() == old(self).has_neg_cost(),
            slope_ok(slope@, flow_ub as int),
            moved(old(self).graph(), final(self).graph(), source as int, sink as int, last_flow(slope@)),
            2 * last_cost(slope@) == graph_cost(final(self).graph()) - graph_cost(old(self).graph()),
    {
        let ghost g0 = self.graph();
        let mut slope: Vec<(i64, i64)> = Vec::new();
        let mut flow_now: i64 = 0;
        let mut min_cost: i64 = 0;
        loop
            invariant
                self.well_formed(),
                source < self.graph().len(),
                sink < self.graph().len(),
                source != sink,
                same_shape(g0, self.graph()),
                self.lower_bound_sum() == old(self).lower_bound_sum(),
                self.has_neg_cost() == old(self).has_neg_cost(),
                0 <= flow_now <= flow_ub,
                flow_now == last_flow(slope@),
                slope_ok(slope@, flow_ub as int),
                moved(g0, self.graph(), source as int, sink as int, flow_now as int),
                min_cost == last_cost(slope@),
                2 * min_cost == graph_cost(self.graph()) - graph_cost(g0),
            decreases flow_ub - flow_now,
        {
            let (dist, prev) = bellman_ford(&self.g, source);
            let dist_sink = match dist[sink] {
                None => {
                    break;
                },
                Some(d) => d,
            };
            if flow_now >= flow_lb && dist_sink > 0 {
                break;
            }
            let path = match find_path(&self.g, &prev, source, sink) {
                None => {
                    break;
                },
                Some(p) => p,
            };
            let delta_flow = self.path_capacity(&path, flow_ub - flow_now, Ghost(source as int), Ghost(sink as int));
            if delta_flow == 0 {
                break;
            }
            let path_cost = match self.path_cost_of(&path, Ghost(source as int), Ghost(sink as int)) {
                None => {
                    break;
                },
                Some(c) => c,
            };
            let step_cost = match delta_flow.checked_mul(path_cost) {
                None => {
                    break;
                },
                Some(c) => c,
            };
            min_cost = match min_cost.checked_add(step_cost) {
                None => {
                    break;
                },
                Some(c) => c,
            };
            let ghost g1 = self.graph();
            flow_now = flow_now + delta_flow;
            slope.push((min_cost, flow_now));
            augment(&mut self.g, &path, delta_flow, Ghost(source as int), Ghost(sink as int));
            proof {
                lemma_same_shape_trans(g0, g1, self.graph());
                lemma_moved_step(g0, g1, self.graph(), source as int, sink as int, (flow_now - delta_flow) as int, delta_flow as int);
                assert(2 * delta_flow * path_cost == 2 * (delta_flow * path_cost)) by (nonlinear_arith);
            }
        }
        slope
    }

    /// Successive shortest paths by Dijkstra's method with potentials (for networks without
    /// negative costs): until `flow_lb` units flow, push along a cheapest path as much as the
    /// path and `flow_lb` allow. Each step adds `(total cost, total flow)` to the slope, the
    /// total cost growing by the units pushed times the cost of the path's edges (a step whose
    /// cost would leave `i64` ends the run).
    #[verifier::spinoff_prover]
    #[verifier::rlimit(40)]
    fn min_poscost_slope(&mut self, source: usize, sink: usize, flow_lb: i64) -> (slope: Vec<(i64, i64)>)
        requires
            old(self).well_formed(),
            source < old(self).graph().len(),
            sink < old(self).graph().len(),
            source != sink,
        ensures
            final(self).well_formed(),
            same_shape(old(self).graph(), final(self).graph()),
            final(self).lower_bound_sum() == old(self).lower_bound_sum(),
            final(self).has_neg_cost() == old(self).has_neg_cost(),
            slope_ok(slope@, flow_lb as int),
            moved(old(self).graph(), final(self).graph(), source as int, sink as int, last_flow(slope@)),
            2 * last_cost(slope@) == graph_cost(final(self).graph()) - graph_cost(old(self).graph()),
    {
        let ghost g0 = self.graph();
        let n = self.g.len();
        let mut h: Vec<i64> = Vec::new();
        for k in 0..n
            invariant
                h@.len() == k,
        {
            h.push(0);
        }
        let mut slope: Vec<(i64, i64)> = Vec::new();
        let mut flow_now: i64 = 0;
        let mut min_cost: i64 = 0;
        while flow_now < flow_lb
            invariant
                self.well_formed(),
                n == self.graph().len(),
                h@.len() == n,
                source < n,
                sink < n,
                source != sink,
                same_shape(g0, self.graph()),
                self.lower_bound_sum() == old(self).lower_bound_sum(),
                self.has_neg_cost() == old(self).has_neg_cost(),
                0 <= flow_now,
                flow_now <= flow_lb || flow_now == 0,
                flow_now == last_flow(slope@),
                slope_ok(slope@, flow_lb as int),
                moved(g0, self.graph(), source as int, sink as int, flow_now as int),
                min_cost == last_cost(slope@),
                2 * min_cost == graph_cost(self.graph()) - graph_cost(g0),
            decreases flow_lb - flow_now,
        {
            let (dist, prev) = dijkstra(&self.g, &h, source);
            if dist[sink].is_none() {
                break;
            }
            let mut overflow = false;
            for i in 0..n
                invariant
                    h@.len() == n,
                    dist@.len() == n,
            {
                if let Some(d) = dist[i] {
                    match h[i].checked_add(d) {
                        Some(x) => {
                            h.set(i, x);
                        },
                        None => {
                            overflow = true;
                        },
                    }
                }
            }
            if overflow {
                break;
            }
            let path = match find_path(&self.g, &prev, source, sink) {
                None => {
                    break;
                },
                Some(p) => p,
            };
            let delta_flow = self.path_capacity(&path, flow_lb - flow_now, Ghost(source as int), Ghost(sink as int));
            if delta_flow == 0 {
                break;
            }
            let path_cost = match self.path_cost_of(&path, Ghost(source as int), Ghost(sink as int)) {
                None => {
                    break;
                },
                Some(c) => c,
            };
            let step_cost = match delta_flow.checked_mul(path_cost) {
                None => {
                    break;
                },
                Some(c) => c,
            };
            min_cost = match min_cost.checked_add(step_cost) {
                None => {
                    break;
                },
                Some(c) => c,
            };
            let ghost g1 = self.graph();
            flow_now = flow_now + delta_flow;
            slope.push((min_cost, flow_now));
            augment(&mut self.g, &path, delta_flow, Ghost(source as int), Ghost(sink as int));
            proof {
                lemma_same_shape_trans(g0, g1, self.graph());
                lemma_moved_step(g0, g1, self.graph(), source as int, sink as int, (flow_now - delta_flow) as int, delta_flow as int);
                assert(2 * delta_flow * path_cost == 2 * (delta_flow * path_cost)) by (nonlinear_arith);
            }
        }
        slope
    }

    /// The slope by the method that suits the costs.
    fn min_cost_slope_impl(&mut self, src: usize, dst: usize, flow_lb: i64, flow_ub: i64) -> (slope: Vec<(i64, i64)>)
        requires
            old(self).well_formed(),
            src < old(self).graph().len(),
            dst < old(self).graph().len(),
            src != dst,
            flow_ub >= 0,
        ensures
            final(self).well_formed(),
            same_shape(old(self).graph(), final(self).graph()),
            final(self).lower_bound_sum() == old(self).lower_bound_sum(),
            final(self).has_neg_cost() == old(self).has_neg_cost(),
            slope_ok(slope@, slope_bound(old(self).has_neg_cost(), flow_lb, flow_ub)),
            moved(old(self).graph(), final(self).graph(), src as int, dst as int, last_flow(slope@)),
            2 * last_cost(slope@) == graph_cost(final(self).graph()) - graph_cost(old(self).graph()),
    {
        if self.neg_cost_any {
            self.min_negcost_slope(src, dst, flow_lb, flow_ub)
        } else {
            self.min_poscost_slope(src, dst, flow_lb)
        }
    }

    fn min_cost_slope_sub(&mut self, src: usize, dst: usize, flow_lb: i64, flow_ub: i64) -> (slope: Vec<(i64, i64)>)
        requires
            old(self).well_formed(),
            src < old(self).graph().len(),
            dst < old(self).graph().len(),
            src != dst,
            flow_ub >= 0,
            old(self).lower_bound_sum() != 0 ==> src < old(self).graph().len() - 2 && dst < old(self).graph().len() - 2,
        ensures
            final(self).well_formed(),
            final(self).lower_bound_sum() == old(self).lower_bound_sum(),
            final(self).has_neg_cost() == old(self).has_neg_cost(),
            slope_run(
                old(self).graph(),
                old(self).lower_bound_sum(),
                old(self).has_neg_cost(),
                final(self).graph(),
                src as int,
                dst as int,
                flow_lb,
                flow_ub,
                slope@,
            ),
    {
        if self.flow_lb_sum == 0 {
            return self.min_cost_slope_impl(src, dst, flow_lb, flow_ub);
        }
        let ghost g0 = self.graph();
        let dummy_src = self.g.len() - 2;
        let dummy_dst = self.g.len() - 1;
        self.add_edge(dst, src, 1152921504606846976);
        let lbs = self.flow_lb_sum;
        let ds2dt_cost_flow = self.min_cost_slope_impl(dummy_src, dummy_dst, lbs, lbs);
        let ghost gm = self.graph();
        let s2t_cost_flow = self.min_cost_slope_impl(src, dst, flow_lb, flow_ub);
        let mut ret: Vec<(i64, i64)> = Vec::new();
        let m = if s2t_cost_flow.len() < ds2dt_cost_flow.len() {
            s2t_cost_flow.len()
        } else {
            ds2dt_cost_flow.len()
        };
        let mut k: usize = 0;
        let mut stopped = false;
        while k < m && !stopped
            invariant
                m == if s2t_cost_flow@.len() < ds2dt_cost_flow@.len() { s2t_cost_flow@.len() } else { ds2dt_cost_flow@.len() },
                k <= m,
                ret@.len() == k,
                forall|j: int|
                    0 <= j < k ==> #[trigger] ret@[j] == ((s2t_cost_flow@[j].0 + ds2dt_cost_flow@[j].0) as i64, ds2dt_cost_flow@[j].1),
                forall|j: int| 0 <= j < k ==> i64::MIN <= #[trigger] s2t_cost_flow@[j].0 + ds2dt_cost_flow@[j].0 <= i64::MAX,
                stopped ==> k < m && !(i64::MIN <= s2t_cost_flow@[k as int].0 + ds2dt_cost_flow@[k as int].0 <= i64::MAX),
            decreases m - k, if stopped { 0int } else { 1int },
        {
            let (ds2dt_cost, _ds2dt_flow) = s2t_cost_flow[k];
            let (s2t_cost, s2t_flow) = ds2dt_cost_flow[k];
            match ds2dt_cost.checked_add(s2t_cost) {
                Some(c) => {
                    ret.push((c, s2t_flow));
                    k = k + 1;
                },
                None => {
                    stopped = true;
                },
            }
        }
        proof {
            assert(combined(s2t_cost_flow@, ds2dt_cost_flow@, ret@));
            assert(cost_run(g0, src as int, dst as int, lbs as int, self.neg_cost_any, flow_lb, flow_ub, gm, ds2dt_cost_flow@, s2t_cost_flow@, ret@, self.graph()));
        }
        ret
    }

    /// The slope of minimum costs from `src` to `dst`: the pairs `(total cost, total flow)`
    /// after each augmentation.
    pub fn min_cost_slope(&mut self, src: usize, dst: usize, flow_lb: i64, flow_ub: i64) -> (slope: Vec<(i64, i64)>)
        requires
            old(self).well_formed(),
            src < old(self).graph().len(),
            dst < old(self).graph().len(),
            src != dst,
            flow_ub >= 0,
            old(self).lower_bound_sum() != 0 ==> src < old(self).graph().len() - 2 && dst < old(self).graph().len() - 2,
        ensures
            final(self).well_formed(),
            final(self).lower_bound_sum() == old(self).lower_bound_sum(),
            final(self).has_neg_cost() == old(self).has_neg_cost(),
            slope_run(
                old(self).graph(),
                old(self).lower_bound_sum(),
                old(self).has_neg_cost(),
                final(self).graph(),
                src as int,
                dst as int,
                flow_lb,
                flow_ub,
                slope@,
            ),
    {
        self.min_cost_slope_sub(src, dst, flow_lb, flow_ub)
    }

    /// The minimum cost and the flow reached, when that flow lies in `flow_lb..=flow_ub`.
    pub fn min_cost_flow(&mut self, src: usize, dst: usize, flow_lb: i64, flow_ub: i64) -> (r: Option<(i64, i64)>)
        requires
            old(self).well_formed(),
            src < old(self).graph().len(),
            dst < old(self).graph().len(),
            src != dst,
            flow_ub >= 0,
            old(self).lower_bound_sum() != 0 ==> src < old(self).graph().len() - 2 && dst < old(self).graph().len() - 2,
        ensures
            final(self).well_formed(),
            final(self).lower_bound_sum() == old(self).lower_bound_sum(),
            final(self).has_neg_cost() == old(self).has_neg_cost(),
            exists|slope: Seq<(i64, i64)>|
                #[trigger] slope_run(
                    old(self).graph(),
                    old(self).lower_bound_sum(),
                    old(self).has_neg_cost(),
                    final(self).graph(),
                    src as int,
                    dst as int,
                    flow_lb,
                    flow_ub,
                    slope,
                ) && r == final_point(slope, flow_lb, flow_ub),
            old(self).lower_bound_sum() == 0 ==> (r matches Some(p) ==> 2 * p.0 == graph_cost(final(self).graph())
                - graph_cost(old(self).graph())),
    {
        let slope = self.min_cost_slope_sub(src, dst, flow_lb, flow_ub);
        let n = slope.len();
        if n > 0 {
            let (cost, flow) = slope[n - 1];
            if flow_lb <= flow && flow <= flow_ub {
                return Some((cost, flow));
            }
        }
        None
    }

    /// The sum of the costs of the path's edges, or `None` where a partial sum leaves `i64`.
    fn path_cost_of(&self, path: &Vec<(usize, usize)>, Ghost(source): Ghost<int>, Ghost(sink): Ghost<int>) -> (c: Option<i64>)
        requires
            self.well_formed(),
            path_ok(self.graph(), path@, source, sink),
        ensures
            c matches Some(v) ==> v == path_cost(self.graph(), path@),
    {
        let ghost gs = self.graph();
        let mut total: i64 = 0;
        let m = path.len();
        for k in 0..m
            invariant
                gs == self.graph(),
                m == path@.len(),
                forall|j: int| 0 <= j < m ==> (#[trigger] path@[j]).0 < gs.len() && path@[j].1 < gs[path@[j].0 as int].len(),
                total == path_cost_upto(gs, path@, k as int),
        {
            let (pv, pei) = path[k];
            proof {
                assert(path@[k as int].0 < gs.len());
            }
            let e = self.g[pv][pei];
            match total.checked_add(e.cost) {
                Some(t) => {
                    total = t;
                },
                None => {
                    return None;
                },
            }
        }
        Some(total)
    }

    /// The least of `bound` and the residual capacities of the path's edges.
    fn path_capacity(&self, path: &Vec<(usize, usize)>, bound: i64, Ghost(source): Ghost<int>, Ghost(sink): Ghost<int>) -> (d: i64)
        requires
            self.well_formed(),
            path_ok(self.graph(), path@, source, sink),
            bound >= 0,
        ensures
            0 <= d <= bound,
            forall|k: int|
                0 <= k < path@.len() ==> d <= #[trigger] self.graph()[path@[k].0 as int][path@[k].1 as int].cap
                    - self.graph()[path@[k].0 as int][path@[k].1 as int].flow,
    {
        let ghost gs = self.graph();
        let mut d = bound;
        let m = path.len();
        for k in 0..m
            invariant
                gs == self.graph(),
                graph_ok(gs),
                m == path@.len(),
                forall|j: int| 0 <= j < m ==> (#[trigger] path@[j]).0 < gs.len() && path@[j].1 < gs[path@[j].0 as int].len(),
                0 <= d <= bound,
                forall|j: int| 0 <= j < k ==> d <= #[trigger] gs[path@[j].0 as int][path@[j].1 as int].cap - gs[path@[j].0 as int][path@[j].1 as int].flow,
        {
            let (pv, pei) = path[k];
            proof {
                assert(path@[k as int].0 < gs.len());
                lemma_residual_range(gs, pv as int, pei as int);
            }
            let e = self.g[pv][pei];
            let rest = e.cap - e.flow;
            if rest < d {
                d = rest;
            }
        }
        d
    }
}

/// The source reaches itself exactly when a labelled vertex has a residual edge into it.
proof fn lemma_reaches_source(g: Seq<Seq<Edge>>, level: Seq<Option<usize>>, source: int)
    requires
        levels_closed(g, level),
        levels_sound(g, level, source),
        level.len() == g.len(),
        0 <= source < g.len(),
    ensures
        reaches(g, source, source) <==> exists|w: int, i: int|
            #![trigger g[w][i]]
            0 <= w < g.len() && 0 <= i < g[w].len() && level[w] is Some && g[w][i].to == source && residual(g[w][i]),
{
    if reaches(g, source, source) {
        let p = choose|p: Seq<int>| #[trigger] walk(g, p) && p.len() >= 2 && p[0] == source && p.last() == source;
        let k = p.len() - 2;
        lemma_walk_labelled(g, level, p, k);
        assert(step(g, p[k], p[k + 1]));
        let i = choose|i: int| 0 <= i < g[p[k]].len() && #[trigger] g[p[k]][i].to == p[k + 1] && residual(g[p[k]][i]);
        assert(0 <= p[k] < g.len() && g[p[k]][i].to == source);
    }
    if exists|w: int, i: int|
        #![trigger g[w][i]]
        0 <= w < g.len() && 0 <= i < g[w].len() && level[w] is Some && g[w][i].to == source && residual(g[w][i]) {
        let (w, i) = choose|w: int, i: int|
            #![trigger g[w][i]]
            0 <= w < g.len() && 0 <= i < g[w].len() && level[w] is Some && g[w][i].to == source && residual(g[w][i]);
        assert(step(g, w, source));
        if w == source {
            let p = seq![source, source];
            assert(walk(g, p));
        } else {
            lemma_labelled_reached(g, level, source, w);
            let p = choose|p: Seq<int>| #[trigger] walk(g, p) && p.len() >= 2 && p[0] == source && p.last() == w;
            lemma_walk_extend(g, p, source);
            assert(p.push(source)[0] == source);
        }
    }
}

/// Sum of the flows of the edges whose head is in `side`.
pub open spec fn in_flow(s: Seq<Edge>, side: Set<int>) -> int
    decreases s.len(),
{
    if s.len() == 0 {
        0
    } else {
        in_flow(s.drop_last(), side) + if side.contains(s.last().to as int) {
            s.last().flow as int
        } else {
            0
        }
    }
}

/// Sum of the flows of the edges whose head is outside `side`.
pub open spec fn out_flow(s: Seq<Edge>, side: Set<int>) -> int
    decreases s.len(),
{
    if s.len() == 0 {
        0
    } else {
        out_flow(s.drop_last(), side) + if side.contains(s.last().to as int) {
            0
        } else {
            s.last().flow as int
        }
    }
}

/// Sum of the capacities of the edges whose head is outside `side`.
pub open spec fn out_cap(s: Seq<Edge>, side: Set<int>) -> int
    decreases s.len(),
{
    if s.len() == 0 {
        0
    } else {
        out_cap(s.drop_last(), side) + if side.contains(s.last().to as int) {
            0
        } else {
            s.last().cap as int
        }
    }
}

/// Number of edges with non-zero flow whose head is in `side`.
pub open spec fn busy_in(s: Seq<Edge>, side: Set<int>) -> int
    decreases s.len(),
{
    if s.len() == 0 {
        0
    } else {
        busy_in(s.drop_last(), side) + if side.contains(s.last().to as int) && s.last().flow != 0 {
            1int
        } else {
            0
        }
    }
}

pub open spec fn in_flow_of(side: Set<int>) -> spec_fn(Seq<Edge>) -> int {
    |s: Seq<Edge>| in_flow(s, side)
}

pub open spec fn out_flow_of(side: Set<int>) -> spec_fn(Seq<Edge>) -> int {
    |s: Seq<Edge>| out_flow(s, side)
}

pub open spec fn out_cap_of(side: Set<int>) -> spec_fn(Seq<Edge>) -> int {
    |s: Seq<Edge>| out_cap(s, side)
}

pub open spec fn busy_in_of(side: Set<int>) -> spec_fn(Seq<Edge>) -> int {
    |s: Seq<Edge>| busy_in(s, side)
}

pub open spec fn flow_sum_of() -> spec_fn(Seq<Edge>) -> int {
    |s: Seq<Edge>| flow_sum(s)
}

/// The sum of `f` over the edge lists of the vertices `0..k` that lie in `side`.
pub open spec fn side_sum(g: Seq<Seq<Edge>>, side: Set<int>, k: int, f: spec_fn(Seq<Edge>) -> int) -> int
    decreases k,
{
    if k <= 0 {
        0
    } else {
        side_sum(g, side, k - 1, f) + if side.contains(k - 1) {
            f(g[k - 1])
        } else {
            0
        }
    }
}

/// Adding an edge and its reverse edge, both without flow, keeps every net flow.
pub proof fn lemma_with_edge_net(g: Seq<Seq<Edge>>, from: int, to: int, cap: i64, cost: i64, u: int)
    requires
        0 <= from < g.len(),
        0 <= to < g.len(),
        from != to,
        0 <= u < g.len(),
    ensures
        net(with_edge(g, from, to, cap, cost), u) == net(g, u),
{
    let g2 = with_edge(g, from, to, cap, cost);
    if u == from {
        lemma_flow_sum_push(g[from], g2[from].last());
        assert(g2[from] =~= g[from].push(g2[from].last()));
    } else if u == to {
        lemma_flow_sum_push(g[to], g2[to].last());
        assert(g2[to] =~= g[to].push(g2[to].last()));
    }
}

/// The source side of the cut: the source and what it reaches by residual edges.
pub open spec fn cut_side(g: Seq<Seq<Edge>>, src: int) -> Set<int> {
    Set::new(|u: int| u == src || reaches(g, src, u))
}

/// The capacity of the edges leaving the source side of the cut.
pub open spec fn cut_capacity(g: Seq<Seq<Edge>>, src: int) -> int {
    side_sum(g, cut_side(g, src), g.len() as int, out_cap_of(cut_side(g, src)))
}

proof fn lemma_split_flow(s: Seq<Edge>, side: Set<int>)
    ensures
        flow_sum(s) == in_flow(s, side) + out_flow(s, side),
        busy_in(s, side) >= 0,
    decreases s.len(),
{
    if s.len() > 0 {
        lemma_split_flow(s.drop_last(), side);
    }
}

proof fn lemma_saturated_out(s: Seq<Edge>, side: Set<int>)
    requires
        forall|i: int| 0 <= i < s.len() && !side.contains(s[i].to as int) ==> (#[trigger] s[i]).flow == s[i].cap,
    ensures
        out_flow(s, side) == out_cap(s, side),
    decreases s.len(),
{
    if s.len() > 0 {
        let d = s.drop_last();
        assert forall|i: int| 0 <= i < d.len() && !side.contains(d[i].to as int) implies (#[trigger] d[i]).flow == d[i].cap by {
            assert(d[i] == s[i]);
        }
        lemma_saturated_out(d, side);
    }
}

proof fn lemma_idle_in(s: Seq<Edge>, side: Set<int>)
    requires
        busy_in(s, side) == 0,
    ensures
        in_flow(s, side) == 0,
    decreases s.len(),
{
    if s.len() > 0 {
        lemma_split_flow(s.drop_last(), side);
        lemma_idle_in(s.drop_last(), side);
    }
}

proof fn lemma_busy_slot(s: Seq<Edge>, side: Set<int>) -> (i: int)
    requires
        busy_in(s, side) > 0,
    ensures
        0 <= i < s.len(),
        side.contains(s[i].to as int),
        s[i].flow != 0,
    decreases s.len(),
{
    lemma_split_flow(s.drop_last(), side);
    if side.contains(s.last().to as int) && s.last().flow != 0 {
        s.len() - 1
    } else {
        let i = lemma_busy_slot(s.drop_last(), side);
        assert(s[i] == s.drop_last()[i]);
        i
    }
}

/// Clearing the flow of one edge whose head is in `side` lowers the inner flow by that flow
/// and the count of busy inner edges by one when the flow was non-zero.
proof fn lemma_clear_slot(s: Seq<Edge>, side: Set<int>, i: int, e: Edge)
    requires
        0 <= i < s.len(),
        e.to == s[i].to,
        e.flow == 0,
    ensures
        in_flow(s.update(i, e), side) == in_flow(s, side) - if side.contains(s[i].to as int) {
            s[i].flow as int
        } else {
            0
        },
        busy_in(s.update(i, e), side) == busy_in(s, side) - if side.contains(s[i].to as int) && s[i].flow != 0 {
            1int
        } else {
            0
        },
    decreases s.len(),
{
    if i == s.len() - 1 {
        assert(s.update(i, e).drop_last() =~= s.drop_last());
    } else {
        lemma_clear_slot(s.drop_last(), side, i, e);
        assert(s.update(i, e).drop_last() =~= s.drop_last().update(i, e));
    }
}

proof fn lemma_side_sum_update(g: Seq<Seq<Edge>>, side: Set<int>, k: int, u: int, s2: Seq<Edge>, f: spec_fn(Seq<Edge>) -> int)
    requires
        0 <= u < g.len(),
        0 <= k <= g.len(),
    ensures
        side_sum(g.update(u, s2), side, k, f) == side_sum(g, side, k, f) + if u < k && side.contains(u) {
            f(s2) - f(g[u])
        } else {
            0
        },
    decreases k,
{
    if k > 0 {
        lemma_side_sum_update(g, side, k - 1, u, s2, f);
    }
}

proof fn lemma_side_sum_add(g: Seq<Seq<Edge>>, side: Set<int>, k: int, f1: spec_fn(Seq<Edge>) -> int, f2: spec_fn(Seq<Edge>) -> int, f3: spec_fn(Seq<Edge>) -> int)
    requires
        0 <= k <= g.len(),
        forall|u: int| 0 <= u < k && side.contains(u) ==> #[trigger] f3(g[u]) == f1(g[u]) + f2(g[u]),
    ensures
        side_sum(g, side, k, f3) == side_sum(g, side, k, f1) + side_sum(g, side, k, f2),
    decreases k,
{
    if k > 0 {
        lemma_side_sum_add(g, side, k - 1, f1, f2, f3);
    }
}

proof fn lemma_side_sum_nonneg(g: Seq<Seq<Edge>>, side: Set<int>, k: int, f: spec_fn(Seq<Edge>) -> int)
    requires
        0 <= k <= g.len(),
        forall|u: int| 0 <= u < k && side.contains(u) ==> #[trigger] f(g[u]) >= 0,
    ensures
        side_sum(g, side, k, f) >= 0,
        side_sum(g, side, k, f) > 0 ==> exists|u: int| 0 <= u < k && side.contains(u) && #[trigger] f(g[u]) > 0,
        side_sum(g, side, k, f) == 0 ==> forall|u: int| 0 <= u < k && side.contains(u) ==> #[trigger] f(g[u]) == 0,
    decreases k,
{
    if k > 0 {
        lemma_side_sum_nonneg(g, side, k - 1, f);
    }
}

/// Only `v` contributes to the sum.
proof fn lemma_side_sum_single(g: Seq<Seq<Edge>>, side: Set<int>, k: int, f: spec_fn(Seq<Edge>) -> int, v: int)
    requires
        0 <= k <= g.len(),
        forall|u: int| 0 <= u < k && side.contains(u) && u != v ==> #[trigger] f(g[u]) == 0,
    ensures
        side_sum(g, side, k, f) == if 0 <= v < k && side.contains(v) {
            f(g[v])
        } else {
            0
        },
    decreases k,
{
    if k > 0 {
        lemma_side_sum_single(g, side, k - 1, f, v);
    }
}

/// The flows between two vertices of `side` cancel out: every edge and its reverse edge
/// carry opposite flows.
proof fn lemma_inner_flows_cancel(g: Seq<Seq<Edge>>, side: Set<int>)
    requires
        graph_ok(g),
    ensures
        side_sum(g, side, g.len() as int, in_flow_of(side)) == 0,
    decreases side_sum(g, side, g.len() as int, busy_in_of(side)),
{
    let n = g.len() as int;
    assert forall|u: int| 0 <= u < n && side.contains(u) implies #[trigger] busy_in_of(side)(g[u]) >= 0 by {
        lemma_split_flow(g[u], side);
    }
    lemma_side_sum_nonneg(g, side, n, busy_in_of(side));
    if side_sum(g, side, n, busy_in_of(side)) > 0 {
        let u = choose|u: int| 0 <= u < n && side.contains(u) && #[trigger] busy_in_of(side)(g[u]) > 0;
        let i = lemma_busy_slot(g[u], side);
        assert(pair_ok(g, u, i));
        let e = g[u][i];
        let t = e.to as int;
        let j = e.rev_idx as int;
        let r = g[t][j];
        let e0 = Edge { flow: 0, ..e };
        let r0 = Edge { flow: 0, ..r };
        let g1 = g.update(u, g[u].update(i, e0));
        let g2 = g1.update(t, g1[t].update(j, r0));
        assert(g1[t] == g[t]);
        // the inner flow is unchanged, the count of busy inner edges drops by two
        lemma_clear_slot(g[u], side, i, e0);
        lemma_clear_slot(g[t], side, j, r0);
        lemma_side_sum_update(g, side, n, u, g[u].update(i, e0), in_flow_of(side));
        lemma_side_sum_update(g1, side, n, t, g1[t].update(j, r0), in_flow_of(side));
        lemma_side_sum_update(g, side, n, u, g[u].update(i, e0), busy_in_of(side));
        lemma_side_sum_update(g1, side, n, t, g1[t].update(j, r0), busy_in_of(side));
        assert(side.contains(t));
        assert(side.contains(r.to as int));
        // the cleared graph is still consistent
        assert forall|v: int, k: int| 0 <= v < g2.len() && 0 <= k < g2[v].len() implies #[trigger] pair_ok(g2, v, k) by {
            assert(pair_ok(g, v, k));
            let ev = g[v][k];
            assert(pair_ok(g, ev.to as int, ev.rev_idx as int));
            if (v == u && k == i) || (v == t && k == j) {
            } else {
                assert(g2[v][k] == ev);
                if ev.to as int == u && ev.rev_idx as int == i {
                    assert(v == t && k == j);
                }
                if ev.to as int == t && ev.rev_idx as int == j {
                    assert(v == u && k == i);
                }
                assert(g2[ev.to as int][ev.rev_idx as int] == g[ev.to as int][ev.rev_idx as int]);
            }
        }
        assert(busy_in_of(side)(g[u].update(i, e0)) == busy_in(g[u].update(i, e0), side));
        assert(busy_in_of(side)(g[u]) == busy_in(g[u], side));
        assert(busy_in_of(side)(g1[t].update(j, r0)) == busy_in(g1[t].update(j, r0), side));
        assert(busy_in_of(side)(g1[t]) == busy_in(g[t], side));
        assert(side_sum(g2, side, n, busy_in_of(side)) == side_sum(g, side, n, busy_in_of(side)) - 2);
        assert forall|v: int| 0 <= v < n && side.contains(v) implies #[trigger] busy_in_of(side)(g2[v]) >= 0 by {
            lemma_split_flow(g2[v], side);
        }
        lemma_side_sum_nonneg(g2, side, n, busy_in_of(side));
        lemma_inner_flows_cancel(g2, side);
    } else {
        assert forall|u: int| 0 <= u < n && side.contains(u) implies #[trigger] in_flow_of(side)(g[u]) == 0 by {
            assert(busy_in_of(side)(g[u]) == 0);
            lemma_idle_in(g[u], side);
        }
        lemma_side_sum_single(g, side, n, in_flow_of(side), -1);
    }
}

/// Max-flow min-cut: when the sink cannot be reached by residual edges and every vertex but
/// the source and the sink has zero net flow, the net flow out of the source equals the
/// capacity of the edges leaving the source side of the cut.
pub proof fn lemma_flow_equals_cut(g: Seq<Seq<Edge>>, src: int, dst: int)
    requires
        graph_ok(g),
        0 <= src < g.len(),
        0 <= dst < g.len(),
        src != dst,
        !reaches(g, src, dst),
        forall|u: int| 0 <= u < g.len() && u != src && u != dst ==> #[trigger] net(g, u) == 0,
    ensures
        net(g, src) == cut_capacity(g, src),
{
    let n = g.len() as int;
    let side = cut_side(g, src);
    assert(!side.contains(dst));
    // net flow summed over the source side is the net flow of the source
    assert forall|u: int| 0 <= u < n && side.contains(u) && u != src implies #[trigger] flow_sum_of()(g[u]) == 0 by {
        assert(net(g, u) == 0);
    }
    lemma_side_sum_single(g, side, n, flow_sum_of(), src);
    // it splits into inner and outer flows
    assert forall|u: int| 0 <= u < n && side.contains(u) implies #[trigger] flow_sum_of()(g[u]) == in_flow_of(side)(g[u])
        + out_flow_of(side)(g[u]) by {
        lemma_split_flow(g[u], side);
    }
    lemma_side_sum_add(g, side, n, in_flow_of(side), out_flow_of(side), flow_sum_of());
    lemma_inner_flows_cancel(g, side);
    // every edge leaving the source side is saturated
    assert forall|u: int| 0 <= u < n && side.contains(u) implies #[trigger] out_flow_of(side)(g[u]) == out_cap_of(side)(g[u]) + 0 by {
        assert forall|i: int| 0 <= i < g[u].len() && !side.contains(g[u][i].to as int) implies (#[trigger] g[u][i]).flow == g[u][i].cap by {
            assert(pair_ok(g, u, i));
            let w = g[u][i].to as int;
            if residual(g[u][i]) {
                assert(step(g, u, w));
                if u == src {
                    let p = seq![src, w];
                    assert(walk(g, p));
                    assert(p.last() == w);
                } else {
                    let p = choose|p: Seq<int>| #[trigger] walk(g, p) && p.len() >= 2 && p[0] == src && p.last() == u;
                    lemma_walk_extend(g, p, w);
                    assert(p.push(w)[0] == src);
                }
                assert(side.contains(w));
            }
        }
        lemma_saturated_out(g[u], side);
    }
    let zero_f = |s: Seq<Edge>| 0int;
    lemma_side_sum_single(g, side, n, zero_f, -1);
    lemma_side_sum_add(g, side, n, out_cap_of(side), zero_f, out_flow_of(side));
}

} // verus!
