use procon_lib::solver::{
    answer_line, Hand, PlanUpdate, Solver, State, BOMB, CAP_SWITCH, MOVE_DOWN, MOVE_LEFT, MOVE_RIGHT, MOVE_UP, N, STAY, T,
};

fn arrivals() -> Vec<Vec<usize>> {
    (0..N).map(|y| (0..N).map(|x| y * N + x).collect()).collect()
}

#[test]
fn state_starts_with_first_column() {
    let a = arrivals();
    let s = State::new(&a);
    for y in 0..N {
        assert_eq!(s.container[0][y][0], Some(y * N));
        for x in 1..N {
            assert_eq!(s.container[0][y][x], None);
        }
    }
    assert!(!s.has_end());
    assert_eq!(s.absorpt, 0);
    assert_eq!(s.container_is_seeked(5), Some((1, N - 1)));
    assert_eq!(s.container_is_seeked(6), None);
}

#[test]
fn backyard_and_seeks_move_containers() {
    let a = arrivals();
    let mut s = State::new(&a);
    // move the container of row 2 to the exit column
    s.container[0][2][0] = None;
    s.container[0][2][N - 1] = Some(10);
    s.update_backyard(&a);
    assert_eq!(s.container[0][2][0], Some(11));
    assert_eq!(s.container[0][1][0], Some(5));
    s.update_seeks();
    assert_eq!(s.container[0][2][N - 1], None);
    assert_eq!(s.absorpt, 1 << 10);
    assert_eq!(s.container_is_seeked(11), Some((2, N - 1)));
    assert!(!s.has_end());
    s.absorpt = (1 << 25) - 1;
    assert!(s.has_end());
}

#[test]
fn floyd_warshall_around_containers() {
    let a = arrivals();
    let s = State::new(&a);
    let d = s.gen_dist0();
    assert_eq!(d[0][1][0][1], Some(0));
    assert_eq!(d[0][1][0][2], Some(1));
    assert_eq!(d[0][1][4][4], Some(7));
    // the left column holds containers: no crane may step there
    assert_eq!(d[0][1][0][0], None);
    assert_eq!(d[0][0][0][1], Some(1));
    assert_eq!(d[0][0][1][0], None);
    assert_eq!(d[2][3][2][3], Some(0));
}

#[test]
fn ideal_targets_of_expected_containers() {
    let a = arrivals();
    let s = State::new(&a);
    let ideal = s.gen_ideal(&a);
    assert_eq!(ideal.len(), N * N);
    for ci in 0..N * N {
        if ci % N == 0 {
            assert_eq!(ideal[ci], Some((ci / N, N - 1)));
        } else {
            assert_eq!(ideal[ci], None);
        }
    }
}

#[test]
fn ideal_sends_blocking_container_to_waiting_cell() {
    // row 0 brings container 5 (expected at row 1) right after its first container 1
    let mut a = arrivals();
    a[0] = vec![1, 5, 2, 3, 4];
    a[1] = vec![0, 6, 7, 8, 9];
    let s = State::new(&a);
    let ideal = s.gen_ideal(&a);
    // container 0 is expected at row 0 and stands on the ground
    assert_eq!(ideal[0], Some((0, N - 1)));
    // row 0 waits 0 arrivals for container 5: its left container 1 goes to the first waiting cell
    assert_eq!(ideal[1], Some((1, 2)));
    assert_eq!(ideal[5], None);
}

#[test]
fn crane_positions_and_plan_updates() {
    let mut hand = Hand::new();
    assert!(hand.at(0).is_empty());
    let mut acts = vec![vec![]; N];
    let upd = PlanUpdate { hi: 2, hand: vec![(3, 1, 1), (2, 1, 0), (1, 1, 0)], ans_acts: vec![STAY, 1] };
    Solver::update_back_trace(upd, &mut hand, &mut acts);
    assert_eq!(hand.at(2), vec![(2, (1, 0))]);
    assert_eq!(hand.at(3), vec![(2, (1, 1))]);
    assert_eq!(acts[2], vec![STAY, 1]);
    assert!(acts[0].is_empty());
    hand.plan[3][0][4] = Some(0);
    assert_eq!(hand.at(3), vec![(0, (0, 4)), (2, (1, 1))]);
}

#[test]
fn going_costs() {
    let a = arrivals();
    let s = State::new(&a);
    let d = s.gen_dist0();
    assert_eq!(Solver::calc_go_move(0, 1, 1, 1, 1, &d, &s.container), Some(0));
    assert_eq!(Solver::calc_go_move(0, 1, 1, 3, 0, &d, &s.container), None);
    assert_eq!(Solver::calc_go_move(0, 0, 0, 3, 4, &d, &s.container), Some(7));
    assert_eq!(Solver::calc_go_move(1, 0, 1, 2, 3, &d, &s.container), Some(4));
}

#[test]
fn back_trace_follows_predecessors() {
    let mut pre = vec![vec![vec![(0usize, 0usize); N]; N]; T];
    // at time 3 the crane is on (2, 2), it came from (2, 1) at time 2, which came from (2, 1)
    pre[3][2][2] = (2, 1);
    pre[2][2][1] = (2, 1);
    let upd = Solver::back_trace(4, 1, 3, 2, 2, &pre);
    assert_eq!(upd.hi, 4);
    assert_eq!(upd.hand, vec![(3, 2, 2), (2, 2, 1), (1, 2, 1)]);
    assert_eq!(upd.ans_acts, vec![STAY, 1]);
}

#[test]
fn hand_motion_finds_cheapest_arrival() {
    let hand = Hand::new();
    let mut dist = vec![vec![vec![(1usize << 30, 0usize); N]; N]; T];
    let mut pre = vec![vec![vec![(0usize, 0usize); N]; N]; T];
    let mut p = (1usize << 30) - 1;
    let p0 = p;
    let target = 1usize << (0 * N + 2);
    let got = Solver::hand_motion(0, (0, 0), 0, 3, target, &mut p, 0, &hand, &mut dist, &mut pre);
    assert_eq!(got, Some((0, 2)));
    assert_eq!(p, p0 - 1);
    // moving at times 0 and 1 costs 2 + 3, staying is free
    assert_eq!(dist[3][0][2], (p0, 5));
    assert_eq!(dist[1][0][1], (p0, 2));
    assert_eq!(dist[1][0][0], (p0, 0));
    let upd = Solver::back_trace(0, 0, 3, 0, 2, &pre);
    assert_eq!(upd.ans_acts, vec![1, 1, STAY]);
    // a blocked cell cannot be reached
    let mut p2 = p;
    let got2 = Solver::hand_motion(0, (0, 0), 0, 3, target, &mut p2, target, &hand, &mut dist, &mut pre);
    assert_eq!(got2, None);
}

#[test]
fn simulation_delivers_every_container() {
    let a = arrivals();
    let solver = Solver::new(a.clone());
    let (acts, ti) = solver.sim().expect("a plan within the horizon");
    assert_eq!(acts.len(), N);
    assert!(ti >= 1 && ti < T);
    for h in 0..N {
        assert!(acts[h].iter().all(|&c| c <= 6));
    }
    assert!(procon_lib::solver::arrivals_ok_exec(&a));
    let mut bad = a.clone();
    bad[0][0] = N * N;
    assert!(!procon_lib::solver::arrivals_ok_exec(&bad));
}

#[test]
fn answer_line_letters() {
    let acts = vec![CAP_SWITCH, MOVE_RIGHT, MOVE_DOWN, CAP_SWITCH, STAY, MOVE_LEFT, MOVE_UP, CAP_SWITCH, BOMB];
    let s: String = answer_line(&acts).into_iter().collect();
    assert_eq!(s, "PRDQ.LUPB");
    assert!(answer_line(&vec![]).is_empty());
}
