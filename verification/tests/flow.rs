use procon_lib::flow::Flow;

#[test]
fn max_flow_of_a_small_network() {
    let mut f = Flow::new(4);
    f.add_edge(0, 1, 3);
    f.add_edge(0, 2, 2);
    f.add_edge(1, 2, 1);
    f.add_edge(1, 3, 2);
    f.add_edge(2, 3, 3);
    assert_eq!(f.max_flow(0, 3), Some(5));
    // nothing more can be pushed
    assert_eq!(f.max_flow(0, 3), Some(0));
}

#[test]
fn max_flow_keeps_conservation() {
    let mut f = Flow::new(4);
    f.add_edge(0, 1, 3);
    f.add_edge(0, 2, 2);
    f.add_edge(1, 2, 1);
    f.add_edge(1, 3, 2);
    f.add_edge(2, 3, 3);
    let v = f.max_flow(0, 3).unwrap();
    let net = |u: usize| f.g[u].iter().map(|e| e.flow).sum::<i64>();
    assert_eq!(net(0), v);
    assert_eq!(net(3), -v);
    assert_eq!(net(1), 0);
    assert_eq!(net(2), 0);
    for u in 0..f.g.len() {
        for e in f.g[u].iter() {
            assert!(e.flow <= e.cap);
            assert_eq!(f.g[e.to][e.rev_idx].flow, -e.flow);
        }
    }
}

#[test]
fn max_flow_unreachable_sink() {
    let mut f = Flow::new(3);
    f.add_edge(0, 1, 4);
    assert_eq!(f.max_flow(0, 2), Some(0));
}

#[test]
fn min_cut_split_after_max_flow() {
    let mut f = Flow::new(4);
    f.add_edge(0, 1, 5);
    f.add_edge(1, 2, 1);
    f.add_edge(2, 3, 5);
    assert_eq!(f.max_flow(0, 3), Some(1));
    // 0 reaches 1, and comes back to itself over the reverse edge of 0 -> 1
    assert_eq!(f.min_cut_split(0), vec![true, true, false, false]);
}

#[test]
fn min_cut_split_without_flow() {
    let mut f = Flow::new(3);
    f.add_edge(0, 1, 1);
    assert_eq!(f.min_cut_split(0), vec![false, true, false]);
}

#[test]
fn max_flow_with_lower_bounds() {
    let mut f = Flow::new(2);
    f.add_flowbound_edge(0, 1, 1, 3);
    assert_eq!(f.max_flow(0, 1), Some(3));
}

#[test]
fn max_flow_infeasible_lower_bounds() {
    let mut f = Flow::new(3);
    f.add_flowbound_edge(0, 1, 2, 2);
    f.add_edge(1, 2, 1);
    assert_eq!(f.max_flow(0, 2), None);
}

fn cost_network() -> Flow {
    let mut f = Flow::new(4);
    f.add_cost_edge(0, 1, 2, 1);
    f.add_cost_edge(0, 2, 1, 5);
    f.add_cost_edge(1, 3, 1, 1);
    f.add_cost_edge(1, 2, 1, 1);
    f.add_cost_edge(2, 3, 2, 1);
    f
}

#[test]
fn min_cost_slope_nonnegative_costs() {
    let mut f = cost_network();
    assert_eq!(f.min_cost_slope(0, 3, 3, 3), vec![(2, 1), (5, 2), (11, 3)]);
}

#[test]
fn min_cost_flow_nonnegative_costs() {
    let mut f = cost_network();
    assert_eq!(f.min_cost_flow(0, 3, 3, 3), Some((11, 3)));
    let mut f = cost_network();
    // only three units can flow
    assert_eq!(f.min_cost_flow(0, 3, 4, 4), None);
}

#[test]
fn min_cost_slope_negative_costs() {
    let mut f = Flow::new(4);
    f.add_cost_edge(0, 3, 1, -1);
    f.add_cost_edge(0, 1, 1, 2);
    f.add_cost_edge(1, 3, 1, 2);
    assert_eq!(f.min_cost_slope(0, 3, 0, 5), vec![(-1, 1)]);
    let mut f = Flow::new(4);
    f.add_cost_edge(0, 3, 1, -1);
    f.add_cost_edge(0, 1, 1, 2);
    f.add_cost_edge(1, 3, 1, 2);
    assert_eq!(f.min_cost_slope(0, 3, 2, 5), vec![(-1, 1), (3, 2)]);
    let mut f = Flow::new(4);
    f.add_cost_edge(0, 3, 1, -1);
    f.add_cost_edge(0, 1, 1, 2);
    f.add_cost_edge(1, 3, 1, 2);
    assert_eq!(f.min_cost_flow(0, 3, 2, 5), Some((3, 2)));
}

#[test]
fn add_cost_edge_pairs_edges() {
    let mut f = Flow::new(2);
    f.add_cost_edge(0, 1, 7, 3);
    assert_eq!(f.g.len(), 4);
    assert_eq!(f.g[0].len(), 1);
    assert_eq!(f.g[1].len(), 1);
    let e = f.g[0][0];
    assert_eq!((e.to, e.rev_idx, e.cap, e.flow, e.cost), (1, 0, 7, 0, 3));
    let r = f.g[1][0];
    assert_eq!((r.to, r.rev_idx, r.cap, r.flow, r.cost), (0, 0, 0, 0, -3));
}

#[test]
fn min_cut_capacity_equals_max_flow() {
    let mut f = Flow::new(6);
    let edges = [(0, 1, 10), (0, 2, 10), (1, 2, 2), (1, 3, 4), (1, 4, 8), (2, 4, 9), (4, 3, 6), (3, 5, 10), (4, 5, 10)];
    for &(a, b, c) in edges.iter() {
        f.add_edge(a, b, c);
    }
    let v = f.max_flow(0, 5).unwrap();
    assert_eq!(v, 19);
    let split = f.min_cut_split(0);
    assert!(!split[5]);
    let on_src_side = |u: usize| u == 0 || split[u];
    let mut cut = 0;
    for u in 0..split.len() {
        if on_src_side(u) {
            for e in f.g[u].iter() {
                if e.to >= split.len() || !on_src_side(e.to) {
                    cut += e.cap;
                }
            }
        }
    }
    assert_eq!(cut, v);
}
