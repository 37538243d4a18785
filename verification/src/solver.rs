//! The yard of the crane puzzle: an `N x N` grid of cells on two levels, containers that
//! arrive at the left column and leave at the right column, and the time plan of the cranes.
use vstd::prelude::*;
use crate::bit_set::{popcount, word_count_ones};
use crate::ordering::reverse_vec;

verus! {

/// Side of the yard.
pub const N: usize = 5;
/// Number of time steps a plan covers.
pub const T: usize = 10000;
pub const MOVE_LEFT: usize = 0;
pub const MOVE_RIGHT: usize = 1;
pub const MOVE_UP: usize = 2;
pub const MOVE_DOWN: usize = 3;
pub const STAY: usize = 4;
pub const CAP_SWITCH: usize = 5;
pub const BOMB: usize = 6;
/// Length of the time window one planning phase may use.
pub const TDELTA: usize = 3 * N;
/// How many cranes other than the large one may travel to a pick-up in one phase.
pub const NON0_HAND_LIM: usize = 1;

/// The move of action `k` (`k < 5`) as `(dy, dx)`.
pub open spec fn spec_dydx(k: int) -> (i64, i64) {
    if k == 0 {
        (0i64, -1i64)
    } else if k == 1 {
        (0i64, 1i64)
    } else if k == 2 {
        (-1i64, 0i64)
    } else if k == 3 {
        (1i64, 0i64)
    } else {
        (0i64, 0i64)
    }
}

/// The move of action `k`.
pub fn dydx(k: usize) -> (r: (i64, i64))
    requires
        k < 5,
    ensures
        r == spec_dydx(k as int),
{
    if k == 0 {
        (0, -1)
    } else if k == 1 {
        (0, 1)
    } else if k == 2 {
        (-1, 0)
    } else if k == 3 {
        (1, 0)
    } else {
        (0, 0)
    }
}

/// `g` is an `N x N` grid.
pub open spec fn grid_ok<A>(g: Seq<Vec<A>>) -> bool {
    &&& g.len() == N
    &&& forall|y: int| 0 <= y < N ==> (#[trigger] g[y])@.len() == N
}

/// The cell `(y, x)` of a grid.
pub open spec fn at<A>(g: Seq<Vec<A>>, y: int, x: int) -> A {
    g[y]@[x]
}

/// An `N x N` grid of `None`.
pub fn empty_grid() -> (g: Vec<Vec<Option<usize>>>)
    ensures
        grid_ok(g@),
        forall|y: int, x: int| 0 <= y < N && 0 <= x < N ==> #[trigger] at(g@, y, x) is None,
{
    let mut g: Vec<Vec<Option<usize>>> = Vec::new();
    for y in 0..N
        invariant
            g@.len() == y,
            forall|j: int| 0 <= j < y ==> (#[trigger] g@[j])@.len() == N,
            forall|j: int, x: int| 0 <= j < y && 0 <= x < N ==> #[trigger] at(g@, j, x) is None,
    {
        let mut row: Vec<Option<usize>> = Vec::new();
        for x in 0..N
            invariant
                row@.len() == x,
                forall|i: int| 0 <= i < x ==> row@[i] is None,
        {
            row.push(None);
        }
        let ghost prev = g@;
        g.push(row);
        assert forall|j: int, x: int| 0 <= j < y + 1 && 0 <= x < N implies #[trigger] at(g@, j, x) is None by {
            if j < y {
                assert(g@[j] == prev[j]);
                assert(at(prev, j, x) is None);
            } else {
                assert(g@[j] == row);
                assert(row@[x] is None);
            }
        }
    }
    g
}

/// `plan` holds one `N x N` grid per time step.
pub open spec fn plan_ok(plan: Seq<Vec<Vec<Option<usize>>>>) -> bool {
    &&& plan.len() == T
    &&& forall|t: int| 0 <= t < T ==> grid_ok(#[trigger] plan[t]@)
}

/// The cranes seen in row-major order over the first `k` cells of `g`, each with its cell.
pub open spec fn hands_upto(g: Seq<Vec<Option<usize>>>, k: int) -> Seq<(usize, (usize, usize))>
    decreases k,
{
    if k <= 0 {
        Seq::empty()
    } else {
        let y = (k - 1) / (N as int);
        let x = (k - 1) % (N as int);
        match at(g, y, x) {
            Some(h) => hands_upto(g, k - 1).push((h, (y as usize, x as usize))),
            None => hands_upto(g, k - 1),
        }
    }
}

/// Where each crane stands at each time step.
pub struct Hand {
    pub plan: Vec<Vec<Vec<Option<usize>>>>,
}

impl Hand {
    /// An empty plan: no crane anywhere at any time.
    pub fn new() -> (r: Self)
        ensures
            plan_ok(r.plan@),
            forall|t: int, y: int, x: int|
                0 <= t < T && 0 <= y < N && 0 <= x < N ==> #[trigger] at(r.plan@[t]@, y, x) is None,
    {
        let mut plan: Vec<Vec<Vec<Option<usize>>>> = Vec::new();
        for t in 0..T
            invariant
                plan@.len() == t,
                forall|s: int| 0 <= s < t ==> grid_ok(#[trigger] plan@[s]@),
                forall|s: int, y: int, x: int|
                    0 <= s < t && 0 <= y < N && 0 <= x < N ==> #[trigger] at(plan@[s]@, y, x) is None,
        {
            plan.push(empty_grid());
        }
        Hand { plan }
    }

    /// The cranes standing somewhere at time `ti`, with their cells, in row-major order.
    pub fn at(&self, ti: usize) -> (r: Vec<(usize, (usize, usize))>)
        requires
            plan_ok(self.plan@),
            ti < T,
        ensures
            r@ == hands_upto(self.plan@[ti as int]@, (N * N) as int),
    {
        let g = &self.plan[ti];
        let mut pos: Vec<(usize, (usize, usize))> = Vec::new();
        for y in 0..N
            invariant
                g@ == self.plan@[ti as int]@,
                grid_ok(g@),
                pos@ == hands_upto(g@, (y * N) as int),
        {
            for x in 0..N
                invariant
                    g@ == self.plan@[ti as int]@,
                    grid_ok(g@),
                    y < N,
                    pos@ == hands_upto(g@, (y * N + x) as int),
            {
                assert((y * N + x) / (N as int) == y && (y * N + x) % (N as int) == x) by (nonlinear_arith)
                    requires
                        x < N,
                ;
                if let Some(hi) = g[y][x] {
                    pos.push((hi, (y, x)));
                }
            }
        }
        pos
    }
}

/// `a` lists, row by row, the containers that arrive at the left cell of that row.
pub open spec fn arrivals_ok(a: Seq<Vec<usize>>) -> bool {
    &&& grid_ok(a)
    &&& forall|y: int, x: int| 0 <= y < N && 0 <= x < N ==> #[trigger] at(a, y, x) < N * N
}

/// The yard: containers on the ground (level 0) and lifted (level 1), how many containers of
/// each row have arrived, how many have left through each row, and the set of containers that
/// have left, as a bit mask.
pub struct State {
    pub container: Vec<Vec<Vec<Option<usize>>>>,
    backyard: Vec<usize>,
    seeks: Vec<usize>,
    pub absorpt: usize,
}

/// The container ids of the OR of `1 << c` over the containers that leave at rows `0..k`.
pub open spec fn seek_mask(ground: Seq<Vec<Option<usize>>>, seeks: Seq<usize>, k: int) -> usize
    decreases k,
{
    if k <= 0 {
        0
    } else {
        let y = k - 1;
        let prev = seek_mask(ground, seeks, k - 1);
        if seeks[y] < N && at(ground, y, N - 1) is Some {
            prev | (1usize << (at(ground, y, N - 1)->0))
        } else {
            prev
        }
    }
}

impl State {
    /// How many containers of each row have arrived.
    pub closed spec fn backyard_of(&self) -> Seq<usize> {
        self.backyard@
    }

    /// How many containers have left through each row.
    pub closed spec fn seeks_of(&self) -> Seq<usize> {
        self.seeks@
    }

    /// The bit mask of the containers that have left.
    pub closed spec fn absorbed(&self) -> usize {
        self.absorpt
    }

    /// Level `z` of the yard.
    pub closed spec fn level(&self, z: int) -> Seq<Vec<Option<usize>>> {
        self.container@[z]@
    }

    /// Shapes and ranges of the state, and every container id below `N * N`.
    pub closed spec fn well_formed(&self) -> bool {
        &&& self.shape_ok()
        &&& forall|z: int, y: int, x: int|
            0 <= z < 2 && 0 <= y < N && 0 <= x < N && (#[trigger] at(self.level(z), y, x)) is Some
                ==> at(self.level(z), y, x)->0 < N * N
    }

    /// Shapes and ranges of the state.
    pub closed spec fn shape_ok(&self) -> bool {
        &&& self.container@.len() == 2
        &&& grid_ok(self.level(0))
        &&& grid_ok(self.level(1))
        &&& self.backyard_of().len() == N
        &&& forall|y: int| 0 <= y < N ==> #[trigger] self.backyard_of()[y] <= N
        &&& self.seeks_of().len() == N
        &&& forall|y: int| 0 <= y < N ==> #[trigger] self.seeks_of()[y] <= N
    }

    /// Row `y` takes in its next container: its left cell is free on both levels and some
    /// container of the row has not arrived yet.
    pub open spec fn takes_in(&self, y: int) -> bool {
        &&& at(self.level(0), y, 0) is None
        &&& at(self.level(1), y, 0) is None
        &&& self.backyard_of()[y] < N
    }

    /// Row `y` lets a container leave: some container of the row is still expected and the
    /// right cell holds a container.
    pub open spec fn lets_out(&self, y: int) -> bool {
        &&& self.seeks_of()[y] < N
        &&& at(self.level(0), y, N - 1) is Some
    }

    /// The starting yard: the first container of each row on its left cell.
    pub fn new(a: &[Vec<usize>]) -> (r: Self)
        requires
            a@.len() >= N,
            forall|y: int| 0 <= y < N ==> (#[trigger] a@[y])@.len() >= 1,
        ensures
            r.shape_ok(),
            (forall|y: int| 0 <= y < N ==> #[trigger] at(a@, y, 0) < N * N) ==> r.well_formed(),
            forall|y: int, x: int|
                0 <= y < N && 0 <= x < N ==> #[trigger] at(r.level(0), y, x) == if x == 0 {
                    Some(at(a@, y, 0))
                } else {
                    None
                },
            forall|y: int, x: int| 0 <= y < N && 0 <= x < N ==> #[trigger] at(r.level(1), y, x) is None,
            r.backyard_of() == Seq::new(N as nat, |y: int| 1usize),
            r.seeks_of() == Seq::new(N as nat, |y: int| 0usize),
            r.absorbed() == 0,
    {
        let mut g0 = empty_grid();
        for y in 0..N
            invariant
                a@.len() >= N,
                forall|y: int| 0 <= y < N ==> (#[trigger] a@[y])@.len() >= 1,
                grid_ok(g0@),
                forall|j: int, x: int|
                    0 <= j < N && 0 <= x < N ==> #[trigger] at(g0@, j, x) == if x == 0 && j < y {
                        Some(at(a@, j, 0))
                    } else {
                        None
                    },
        {
            let v = a[y][0];
            let ghost prev = g0@;
            g0[y].set(0, Some(v));
            assert forall|j: int, x: int| 0 <= j < N && 0 <= x < N implies #[trigger] at(g0@, j, x)
                == if x == 0 && j < y + 1 {
                Some(at(a@, j, 0))
            } else {
                None
            } by {
                if j != y {
                    assert(g0@[j] == prev[j]);
                    assert(at(prev, j, x) == at(g0@, j, x));
                } else {
                    assert(g0@[j]@ == prev[j]@.update(0, Some(v)));
                    if x != 0 {
                        assert(at(prev, j, x) is None);
                    }
                }
            }
        }
        let g1 = empty_grid();
        let mut container: Vec<Vec<Vec<Option<usize>>>> = Vec::new();
        container.push(g0);
        container.push(g1);
        let mut backyard: Vec<usize> = Vec::new();
        let mut seeks: Vec<usize> = Vec::new();
        for y in 0..N
            invariant
                backyard@ == Seq::new(y as nat, |j: int| 1usize),
                seeks@ == Seq::new(y as nat, |j: int| 0usize),
        {
            backyard.push(1);
            seeks.push(0);
        }
        let r = State { container, backyard, seeks, absorpt: 0 };
        assert(r.level(0) == g0@);
        assert(r.level(1) == g1@);
        r
    }

    /// Bring the next container of every row that takes one in onto its left cell.
    pub fn update_backyard(&mut self, a: &[Vec<usize>])
        requires
            old(self).shape_ok(),
            a@.len() >= N,
            forall|y: int| 0 <= y < N && old(self).takes_in(y) ==> old(self).backyard_of()[y] < (#[trigger] a@[y])@.len(),
        ensures
            final(self).shape_ok(),
            old(self).well_formed() && (forall|y: int|
                0 <= y < N && old(self).takes_in(y) ==> #[trigger] at(a@, y, old(self).backyard_of()[y] as int) < N * N)
                ==> final(self).well_formed(),
            final(self).level(1) == old(self).level(1),
            forall|y: int, x: int|
                0 <= y < N && 0 <= x < N ==> #[trigger] at(final(self).level(0), y, x) == if x == 0
                    && old(self).takes_in(y) {
                    Some(at(a@, y, old(self).backyard_of()[y] as int))
                } else {
                    at(old(self).level(0), y, x)
                },
            forall|y: int|
                0 <= y < N ==> #[trigger] final(self).backyard_of()[y] == old(self).backyard_of()[y]
                    + if old(self).takes_in(y) {
                    1int
                } else {
                    0int
                },
            final(self).backyard_of().len() == N,
            final(self).seeks_of() == old(self).seeks_of(),
            final(self).absorbed() == old(self).absorbed(),
    {
        let ghost s0 = *self;
        let ghost fresh = s0.well_formed() && (forall|y: int|
            0 <= y < N && s0.takes_in(y) ==> #[trigger] at(a@, y, s0.backyard_of()[y] as int) < N * N);
        for y in 0..N
            invariant
                s0.shape_ok(),
                a@.len() >= N,
                forall|y: int| 0 <= y < N && s0.takes_in(y) ==> s0.backyard_of()[y] < (#[trigger] a@[y])@.len(),
                fresh == (s0.well_formed() && (forall|y: int|
                    0 <= y < N && s0.takes_in(y) ==> #[trigger] at(a@, y, s0.backyard_of()[y] as int) < N * N)),
                self.shape_ok(),
                fresh ==> self.well_formed(),
                self.level(1) == s0.level(1),
                self.seeks_of() == s0.seeks_of(),
                self.absorpt == s0.absorpt,
                forall|j: int, x: int|
                    0 <= j < N && 0 <= x < N ==> #[trigger] at(self.level(0), j, x) == if x == 0 && j
                        < y && s0.takes_in(j) {
                        Some(at(a@, j, s0.backyard_of()[j] as int))
                    } else {
                        at(s0.level(0), j, x)
                    },
                forall|j: int|
                    0 <= j < N ==> #[trigger] self.backyard_of()[j] == s0.backyard_of()[j] + if j < y
                        && s0.takes_in(j) {
                        1int
                    } else {
                        0int
                    },
        {
            assert(at(self.level(0), y as int, 0) == at(s0.level(0), y as int, 0));
            if self.container[0][y][0].is_none() && self.container[1][y][0].is_none()
                && self.backyard[y] < N {
            let b = self.backyard[y];
            assert(s0.takes_in(y as int));
            assert(b == s0.backyard_of()[y as int]);
            let v = a[y][b];
            assert(fresh ==> v < N * N) by {
                assert(at(a@, y as int, b as int) == v);
            }
            let ghost prev = *self;
            self.container[0][y].set(0, Some(v));
            self.backyard.set(y, b + 1);
            assert(self.level(1) == prev.level(1));
            assert forall|j: int, x: int| 0 <= j < N && 0 <= x < N implies #[trigger] at(
                self.level(0),
                j,
                x,
            ) == at(prev.level(0), j, x) || (j == y && x == 0) by {
                if j != y {
                    assert(self.level(0)[j] == prev.level(0)[j]);
                }
            }
            assert forall|z: int, j: int, x: int|
                fresh && 0 <= z < 2 && 0 <= j < N && 0 <= x < N && (#[trigger] at(self.level(z), j, x)) is Some
                    implies at(self.level(z), j, x)->0 < N * N by {
                if z == 0 {
                    if !(j == y && x == 0) {
                        assert(at(self.level(0), j, x) == at(prev.level(0), j, x));
                    } else {
                        assert(self.level(0)[j]@ == prev.level(0)[j]@.update(0, Some(v)));
                        assert(at(self.level(0), j, x) == Some(v));
                    }
                } else {
                    assert(at(self.level(1), j, x) == at(prev.level(1), j, x));
                }
            }
            }
        }
    }

    /// Let a container leave through every row that lets one out, and record it as gone.
    pub fn update_seeks(&mut self)
        requires
            old(self).well_formed(),
        ensures
            final(self).well_formed(),
            final(self).level(1) == old(self).level(1),
            forall|y: int, x: int|
                0 <= y < N && 0 <= x < N ==> #[trigger] at(final(self).level(0), y, x) == if x == N
                    - 1 && old(self).lets_out(y) {
                    None
                } else {
                    at(old(self).level(0), y, x)
                },
            forall|y: int|
                0 <= y < N ==> #[trigger] final(self).seeks_of()[y] == old(self).seeks_of()[y] + if old(
                    self,
                ).lets_out(y) {
                    1int
                } else {
                    0int
                },
            final(self).backyard_of() == old(self).backyard_of(),
            final(self).absorbed() == old(self).absorbed() | seek_mask(
                old(self).level(0),
                old(self).seeks_of(),
                N as int,
            ),
    {
        let ghost s0 = *self;
        assert(s0.absorpt | 0usize == s0.absorpt) by (bit_vector);
        for y in 0..N
            invariant
                s0.well_formed(),
                self.well_formed(),
                self.level(1) == s0.level(1),
                self.backyard_of() == s0.backyard_of(),
                forall|j: int, x: int|
                    0 <= j < N && 0 <= x < N ==> #[trigger] at(self.level(0), j, x) == if x == N - 1
                        && j < y && s0.lets_out(j) {
                        None
                    } else {
                        at(s0.level(0), j, x)
                    },
                forall|j: int|
                    0 <= j < N ==> #[trigger] self.seeks_of()[j] == s0.seeks_of()[j] + if j < y
                        && s0.lets_out(j) {
                        1int
                    } else {
                        0int
                    },
                self.absorpt == s0.absorpt | seek_mask(s0.level(0), s0.seeks_of(), y as int),
        {
            let ghost a0 = s0.absorpt;
            let ghost m = seek_mask(s0.level(0), s0.seeks_of(), y as int);
            assert(at(self.level(0), y as int, N - 1) == at(s0.level(0), y as int, N - 1));
            if self.seeks[y] >= N {
                assert(seek_mask(s0.level(0), s0.seeks_of(), y + 1) == m);
            } else if let Some(ci) = self.container[0][y][N - 1] {
                let ghost prev = *self;
                self.container[0][y].set(N - 1, None);
                let sk = self.seeks[y];
                self.seeks.set(y, sk + 1);
                let bit: usize = 1usize << ci;
                self.absorpt = self.absorpt | bit;
                assert((a0 | m) | bit == a0 | (m | bit)) by (bit_vector);
                assert(seek_mask(s0.level(0), s0.seeks_of(), y + 1) == m | bit);
                assert(self.level(1) == prev.level(1));
                assert forall|j: int, x: int| 0 <= j < N && 0 <= x < N && !(j == y && x == N - 1) implies #[trigger] at(
                    self.level(0),
                    j,
                    x,
                ) == at(prev.level(0), j, x) by {
                    if j != y {
                        assert(self.level(0)[j] == prev.level(0)[j]);
                    }
                }
                assert forall|z: int, j: int, x: int|
                    0 <= z < 2 && 0 <= j < N && 0 <= x < N && (#[trigger] at(self.level(z), j, x)) is Some
                        implies at(self.level(z), j, x)->0 < N * N by {
                    if z == 0 {
                        assert(at(self.level(0), j, x) == at(prev.level(0), j, x));
                    } else {
                        assert(at(self.level(1), j, x) == at(prev.level(1), j, x));
                    }
                }
            } else {
                assert(seek_mask(s0.level(0), s0.seeks_of(), y + 1) == m);
            }
        }
    }

    /// Every container has left.
    pub fn has_end(&self) -> (r: bool)
        ensures
            r == (popcount(self.absorbed() as u64) == N * N),
    {
        word_count_ones(self.absorpt as u64) as usize == N * N
    }

    /// The exit cell of the row through which container `ci` is the next to leave, if any.
    pub fn container_is_seeked(&self, ci: usize) -> (r: Option<(usize, usize)>)
        requires
            self.well_formed(),
        ensures
            match r {
                Some((y, x)) => {
                    &&& x == N - 1
                    &&& y < N
                    &&& y * N + self.seeks_of()[y as int] == ci
                    &&& forall|j: int| 0 <= j < y ==> j * N + #[trigger] self.seeks_of()[j] != ci
                },
                None => forall|j: int| 0 <= j < N ==> j * N + #[trigger] self.seeks_of()[j] != ci,
            },
    {
        for y in 0..N
            invariant
                self.well_formed(),
                forall|j: int| 0 <= j < y ==> j * N + #[trigger] self.seeks_of()[j] != ci,
        {
            if y * N + self.seeks[y] == ci {
                return Some((y, N - 1));
            }
        }
        None
    }
}

/// Row of the flat cell index `c`.
pub open spec fn cy(c: int) -> int {
    c / (N as int)
}

/// Column of the flat cell index `c`.
pub open spec fn cx(c: int) -> int {
    c % (N as int)
}

/// Cell `j` is cell `i` moved by action `k`, inside the yard.
pub open spec fn moved(i: int, j: int, k: int) -> bool {
    &&& 0 <= cy(i) + spec_dydx(k).0 < N
    &&& 0 <= cx(i) + spec_dydx(k).1 < N
    &&& cy(j) == cy(i) + spec_dydx(k).0
    &&& cx(j) == cx(i) + spec_dydx(k).1
}

/// Cell `j` is cell `i` moved by one of the first `kk` actions.
pub open spec fn moved_before(i: int, j: int, kk: int) -> bool {
    ||| (kk > 0 && moved(i, j, 0))
    ||| (kk > 1 && moved(i, j, 1))
    ||| (kk > 2 && moved(i, j, 2))
    ||| (kk > 3 && moved(i, j, 3))
}

/// A crane can step from cell `i` to the 4-neighbour cell `j` when no container stands on `j`.
pub open spec fn step_edge(ground: Seq<Vec<Option<usize>>>, i: int, j: int) -> bool {
    &&& at(ground, cy(j), cx(j)) is None
    &&& moved_before(i, j, 4)
}

/// Shortest number of steps from cell `i` to cell `j` through intermediate cells below `k`
/// (the Floyd-Warshall recurrence), `None` when there is no such route.
pub open spec fn fw(ground: Seq<Vec<Option<usize>>>, k: nat, i: int, j: int) -> Option<int>
    decreases k,
{
    if k == 0 {
        if i == j {
            Some(0)
        } else if step_edge(ground, i, j) {
            Some(1)
        } else {
            None
        }
    } else {
        let m = k - 1;
        let prev = fw(ground, (k - 1) as nat, i, j);
        match (fw(ground, (k - 1) as nat, i, m), fw(ground, (k - 1) as nat, m, j)) {
            (Some(a), Some(b)) => match prev {
                Some(v) => if a + b < v {
                    Some(a + b)
                } else {
                    Some(v)
                },
                None => Some(a + b),
            },
            _ => prev,
        }
    }
}

/// `2^k`.
pub open spec fn pow2k(k: nat) -> int
    decreases k,
{
    if k == 0 {
        1
    } else {
        2 * pow2k((k - 1) as nat)
    }
}

/// Distances of the recurrence are non-negative, at most `2^k`, and zero from a cell to itself.
pub proof fn lemma_fw_bounds(ground: Seq<Vec<Option<usize>>>, k: nat)
    ensures
        forall|i: int, j: int|
            (#[trigger] fw(ground, k, i, j)) is Some ==> 0 <= fw(ground, k, i, j)->0 <= pow2k(k),
        forall|i: int| #[trigger] fw(ground, k, i, i) == Some(0int),
    decreases k,
{
    if k > 0 {
        lemma_fw_bounds(ground, (k - 1) as nat);
        assert forall|i: int, j: int| (#[trigger] fw(ground, k, i, j)) is Some implies 0 <= fw(
            ground,
            k,
            i,
            j,
        )->0 <= pow2k(k) by {
            let m = k - 1;
            let _ = fw(ground, (k - 1) as nat, i, m);
            let _ = fw(ground, (k - 1) as nat, m, j);
            let _ = fw(ground, (k - 1) as nat, i, j);
        }
        assert forall|i: int| #[trigger] fw(ground, k, i, i) == Some(0int) by {
            let m = k - 1;
            let k1 = (k - 1) as nat;
            assert(fw(ground, k1, i, i) == Some(0int));
            if fw(ground, k1, i, m) is Some {
                assert(fw(ground, k1, i, m)->0 >= 0);
            }
            if fw(ground, k1, m, i) is Some {
                assert(fw(ground, k1, m, i)->0 >= 0);
            }
        }
    }
}

/// Round `k` leaves row `k` and column `k` unchanged.
pub proof fn lemma_fw_pivot_fixed(ground: Seq<Vec<Option<usize>>>, k: nat, i: int)
    ensures
        fw(ground, k + 1, k as int, i) == fw(ground, k, k as int, i),
        fw(ground, k + 1, i, k as int) == fw(ground, k, i, k as int),
{
    lemma_fw_bounds(ground, k);
    let _ = fw(ground, k, k as int, k as int);
    let _ = fw(ground, k, i, k as int);
    let _ = fw(ground, k, k as int, i);
}

/// `2^25` bounds the recurrence for a yard of 25 cells.
proof fn lemma_pow2k_25()
    ensures
        pow2k(25) == 33554432,
{
    reveal_with_fuel(pow2k, 26);
}

/// The flattened view of a distance table: entry `(i, j)` for flat cell indices.
pub open spec fn d4(dist: Seq<Vec<Vec<Vec<Option<i64>>>>>, i: int, j: int) -> Option<i64> {
    dist[cy(i)]@[cx(i)]@[cy(j)]@[cx(j)]
}

/// A distance table indexed `[y0][x0][y1][x1]` over the yard.
pub open spec fn table_ok(dist: Seq<Vec<Vec<Vec<Option<i64>>>>>) -> bool {
    &&& dist.len() == N
    &&& forall|y: int| 0 <= y < N ==> (#[trigger] dist[y])@.len() == N
    &&& forall|y: int, x: int| 0 <= y < N && 0 <= x < N ==> (#[trigger] dist[y]@[x])@.len() == N
    &&& forall|y: int, x: int, z: int|
        0 <= y < N && 0 <= x < N && 0 <= z < N ==> (#[trigger] dist[y]@[x]@[z])@.len() == N
}

/// An optional `i64` read as an optional integer.
pub open spec fn opt_int(o: Option<i64>) -> Option<int> {
    match o {
        Some(v) => Some(v as int),
        None => None,
    }
}

/// Flat cell indices cover the yard row by row.
pub proof fn lemma_flat(i: int)
    requires
        0 <= i < N * N,
    ensures
        0 <= cy(i) < N,
        0 <= cx(i) < N,
        cy(i) * N + cx(i) == i,
{
    assert(0 <= i / 5 < 5 && 0 <= i % 5 < 5 && (i / 5) * 5 + i % 5 == i) by (nonlinear_arith)
        requires
            0 <= i < 25,
    ;
}

/// The flat index of the cell `(y, x)`.
pub proof fn lemma_unflat(y: int, x: int)
    requires
        0 <= y < N,
        0 <= x < N,
    ensures
        cy(y * N + x) == y,
        cx(y * N + x) == x,
        0 <= y * N + x < N * N,
{
    assert((y * 5 + x) / 5 == y && (y * 5 + x) % 5 == x && 0 <= y * 5 + x < 25) by (nonlinear_arith)
        requires
            0 <= y < 5,
            0 <= x < 5,
    ;
}

/// Two flat cells with the same row and column are the same cell.
proof fn lemma_flat_inj(p: int, q: int)
    requires
        0 <= p < N * N,
        0 <= q < N * N,
        cy(p) == cy(q),
        cx(p) == cx(q),
    ensures
        p == q,
{
    lemma_flat(p);
    lemma_flat(q);
}

/// Writing `v` at `(i, j)` of a distance table changes that entry only.
proof fn lemma_d4_set(
    old: Seq<Vec<Vec<Vec<Option<i64>>>>>,
    new: Seq<Vec<Vec<Vec<Option<i64>>>>>,
    i: int,
    j: int,
    v: Option<i64>,
)
    requires
        table_ok(old),
        0 <= i < N * N,
        0 <= j < N * N,
        new.len() == old.len(),
        forall|y: int| 0 <= y < N && y != cy(i) ==> new[y] == old[y],
        new[cy(i)]@.len() == N,
        forall|x: int| 0 <= x < N && x != cx(i) ==> new[cy(i)]@[x] == old[cy(i)]@[x],
        new[cy(i)]@[cx(i)]@.len() == N,
        forall|z: int|
            0 <= z < N && z != cy(j) ==> new[cy(i)]@[cx(i)]@[z] == old[cy(i)]@[cx(i)]@[z],
        new[cy(i)]@[cx(i)]@[cy(j)]@ == old[cy(i)]@[cx(i)]@[cy(j)]@.update(cx(j), v),
    ensures
        table_ok(new),
        forall|p: int, q: int|
            0 <= p < N * N && 0 <= q < N * N ==> #[trigger] d4(new, p, q) == if p == i && q == j {
                v
            } else {
                d4(old, p, q)
            },
{
    lemma_flat(i);
    lemma_flat(j);
    assert forall|p: int, q: int| 0 <= p < N * N && 0 <= q < N * N implies #[trigger] d4(new, p, q)
        == if p == i && q == j {
        v
    } else {
        d4(old, p, q)
    } by {
        lemma_flat(p);
        lemma_flat(q);
        if cy(p) == cy(i) && cx(p) == cx(i) {
            lemma_flat_inj(p, i);
            if cy(q) == cy(j) && cx(q) == cx(j) {
                lemma_flat_inj(q, j);
            }
        }
    }
}

/// A table whose every entry is `None`.
fn none_table() -> (d: Vec<Vec<Vec<Vec<Option<i64>>>>>)
    ensures
        table_ok(d@),
        forall|p: int, q: int| 0 <= p < N * N && 0 <= q < N * N ==> #[trigger] d4(d@, p, q) is None,
{
    let mut d: Vec<Vec<Vec<Vec<Option<i64>>>>> = Vec::new();
    for y in 0..N
        invariant
            d@.len() == y,
            forall|a: int| 0 <= a < y ==> (#[trigger] d@[a])@.len() == N,
            forall|a: int, b: int| 0 <= a < y && 0 <= b < N ==> grid_ok((#[trigger] d@[a]@[b])@),
            forall|a: int, b: int, c: int, e: int|
                0 <= a < y && 0 <= b < N && 0 <= c < N && 0 <= e < N ==> #[trigger] d@[a]@[b]@[c]@[e]
                    is None,
    {
        let mut row: Vec<Vec<Vec<Option<i64>>>> = Vec::new();
        for x in 0..N
            invariant
                row@.len() == x,
                forall|b: int| 0 <= b < x ==> grid_ok((#[trigger] row@[b])@),
                forall|b: int, c: int, e: int|
                    0 <= b < x && 0 <= c < N && 0 <= e < N ==> #[trigger] row@[b]@[c]@[e] is None,
        {
            let mut g: Vec<Vec<Option<i64>>> = Vec::new();
            for z in 0..N
                invariant
                    g@.len() == z,
                    forall|c: int| 0 <= c < z ==> (#[trigger] g@[c])@.len() == N,
                    forall|c: int, e: int| 0 <= c < z && 0 <= e < N ==> #[trigger] g@[c]@[e] is None,
            {
                let mut line: Vec<Option<i64>> = Vec::new();
                for w in 0..N
                    invariant
                        line@.len() == w,
                        forall|e: int| 0 <= e < w ==> #[trigger] line@[e] is None,
                {
                    line.push(None);
                }
                g.push(line);
            }
            row.push(g);
        }
        d.push(row);
    }
    assert forall|p: int, q: int| 0 <= p < N * N && 0 <= q < N * N implies #[trigger] d4(d@, p, q)
        is None by {
        lemma_flat(p);
        lemma_flat(q);
    }
    d
}

impl State {
    /// Shortest step counts between all pairs of cells for a crane that may not step onto a
    /// cell holding a container on the ground: `dist[y0][x0][y1][x1]`, `None` when unreachable.
    #[verifier::rlimit(40)]
    pub fn gen_dist0(&self) -> (dist: Vec<Vec<Vec<Vec<Option<i64>>>>>)
        requires
            self.well_formed(),
        ensures
            table_ok(dist@),
            forall|p: int, q: int|
                0 <= p < N * N && 0 <= q < N * N ==> opt_int(#[trigger] d4(dist@, p, q)) == fw(
                    self.level(0),
                    (N * N) as nat,
                    p,
                    q,
                ),
    {
        let ghost ground = self.level(0);
        let mut dist = none_table();
        for i in 0..N * N
            invariant
                table_ok(dist@),
                forall|p: int, q: int|
                    0 <= p < N * N && 0 <= q < N * N ==> #[trigger] d4(dist@, p, q) == if p == q && p
                        < i {
                        Some(0i64)
                    } else {
                        None
                    },
        {
            let y = i / N;
            let x = i % N;
            proof {
                lemma_flat(i as int);
            }
            let ghost old = dist@;
            dist[y][x][y].set(x, Some(0));
            proof {
                lemma_d4_set(old, dist@, i as int, i as int, Some(0i64));
            }
        }
        for i in 0..N * N
            invariant
                ground == self.level(0),
                self.well_formed(),
                table_ok(dist@),
                forall|p: int, q: int|
                    0 <= p < N * N && 0 <= q < N * N ==> #[trigger] d4(dist@, p, q) == if p == q {
                        Some(0i64)
                    } else if p < i && step_edge(ground, p, q) {
                        Some(1i64)
                    } else {
                        None
                    },
        {
            let y0 = i / N;
            let x0 = i % N;
            proof {
                lemma_flat(i as int);
            }
            for k in 0..4
                invariant
                    ground == self.level(0),
                    self.well_formed(),
                    0 <= i < N * N,
                    y0 == cy(i as int),
                    x0 == cx(i as int),
                    y0 < N,
                    x0 < N,
                    table_ok(dist@),
                    forall|p: int, q: int|
                        0 <= p < N * N && 0 <= q < N * N ==> #[trigger] d4(dist@, p, q) == if p == q {
                            Some(0i64)
                        } else if p < i && step_edge(ground, p, q) {
                            Some(1i64)
                        } else if p == i && at(ground, cy(q), cx(q)) is None && moved_before(
                            p,
                            q,
                            k as int,
                        ) {
                            Some(1i64)
                        } else {
                            None
                        },
            {
                let (dy, dx) = dydx(k);
                let ny: i64 = y0 as i64 + dy;
                let nx: i64 = x0 as i64 + dx;
                if 0 <= ny && ny <= (N - 1) as i64 && 0 <= nx && nx <= (N - 1) as i64 {
                    let y1 = ny as usize;
                    let x1 = nx as usize;
                    let j = y1 * N + x1;
                    proof {
                        lemma_unflat(y1 as int, x1 as int);
                        assert(moved(i as int, j as int, k as int));
                        assert forall|q: int| 0 <= q < N * N && #[trigger] moved(i as int, q, k as int)
                            implies q == j by {
                            lemma_flat(q);
                            lemma_flat_inj(q, j as int);
                        }
                        assert(i != j) by {
                            if i == j {
                                assert(cy(i as int) == cy(j as int) && cx(i as int) == cx(j as int));
                            }
                        }
                    }
                    if self.container[0][y1][x1].is_none() {
                        let ghost old = dist@;
                        dist[y0][x0][y1].set(x1, Some(1));
                        proof {
                            lemma_d4_set(old, dist@, i as int, j as int, Some(1i64));
                        }
                    }
                } else {
                    proof {
                        assert forall|q: int| 0 <= q < N * N implies !#[trigger] moved(
                            i as int,
                            q,
                            k as int,
                        ) by {}
                    }
                }
            }
        }
        assert forall|p: int, q: int| 0 <= p < N * N && 0 <= q < N * N implies opt_int(
            #[trigger] d4(dist@, p, q),
        ) == fw(ground, 0, p, q) by {
            if p == q {
            } else if step_edge(ground, p, q) {
            }
        }
        for k in 0..N * N
            invariant
                ground == self.level(0),
                table_ok(dist@),
                forall|p: int, q: int|
                    0 <= p < N * N && 0 <= q < N * N ==> opt_int(#[trigger] d4(dist@, p, q)) == fw(
                        ground,
                        k as nat,
                        p,
                        q,
                    ),
        {
            let ky = k / N;
            let kx = k % N;
            proof {
                lemma_flat(k as int);
                lemma_fw_bounds(ground, k as nat);
                assert(pow2k(k as nat) <= pow2k(25)) by {
                    lemma_pow2k_mono(k as nat, 25);
                }
                lemma_pow2k_25();
            }
            for i in 0..N * N
                invariant
                    ground == self.level(0),
                    table_ok(dist@),
                    0 <= k < N * N,
                    ky == cy(k as int),
                    kx == cx(k as int),
                    ky < N,
                    kx < N,
                    pow2k(k as nat) <= 33554432,
                    forall|p: int, q: int|
                        (#[trigger] fw(ground, k as nat, p, q)) is Some ==> 0 <= fw(
                            ground,
                            k as nat,
                            p,
                            q,
                        )->0 <= pow2k(k as nat),
                    forall|p: int, q: int|
                        0 <= p < N * N && 0 <= q < N * N ==> opt_int(#[trigger] d4(dist@, p, q))
                            == if p < i {
                            fw(ground, (k + 1) as nat, p, q)
                        } else {
                            fw(ground, k as nat, p, q)
                        },
            {
                let iy = i / N;
                let ix = i % N;
                proof {
                    lemma_flat(i as int);
                    lemma_fw_pivot_fixed(ground, k as nat, i as int);
                }
                let d_ik_opt = dist[iy][ix][ky][kx];
                assert(d_ik_opt == d4(dist@, i as int, k as int));
                if let Some(d_ik) = d_ik_opt {
                    for j in 0..N * N
                        invariant
                            ground == self.level(0),
                            table_ok(dist@),
                            0 <= k < N * N,
                            0 <= i < N * N,
                            ky == cy(k as int),
                            kx == cx(k as int),
                            iy == cy(i as int),
                            ix == cx(i as int),
                            ky < N,
                            kx < N,
                            iy < N,
                            ix < N,
                            pow2k(k as nat) <= 33554432,
                            forall|p: int, q: int|
                                (#[trigger] fw(ground, k as nat, p, q)) is Some ==> 0 <= fw(
                                    ground,
                                    k as nat,
                                    p,
                                    q,
                                )->0 <= pow2k(k as nat),
                            fw(ground, k as nat, i as int, k as int) == Some(d_ik as int),
                            forall|p: int, q: int|
                                0 <= p < N * N && 0 <= q < N * N ==> opt_int(
                                    #[trigger] d4(dist@, p, q),
                                ) == if p < i || (p == i && q < j) {
                                    fw(ground, (k + 1) as nat, p, q)
                                } else {
                                    fw(ground, k as nat, p, q)
                                },
                    {
                        let jy = j / N;
                        let jx = j % N;
                        proof {
                            lemma_flat(j as int);
                            lemma_fw_pivot_fixed(ground, k as nat, j as int);
                        }
                        let d_kj_opt = dist[ky][kx][jy][jx];
                        assert(d_kj_opt == d4(dist@, k as int, j as int));
                        if let Some(d_kj) = d_kj_opt {
                            assert(opt_int(d_kj_opt) == fw(ground, k as nat, k as int, j as int));
                            let cand: i64 = d_ik + d_kj;
                            let cur = dist[iy][ix][jy][jx];
                            assert(cur == d4(dist@, i as int, j as int));
                            let nv: Option<i64> = match cur {
                                Some(v) => if cand < v {
                                    Some(cand)
                                } else {
                                    Some(v)
                                },
                                None => Some(cand),
                            };
                            let ghost old = dist@;
                            dist[iy][ix][jy].set(jx, nv);
                            proof {
                                lemma_d4_set(old, dist@, i as int, j as int, nv);
                            }
                        } else {
                            assert(fw(ground, k as nat, k as int, j as int) is None);
                        }
                    }
                }
            }
        }
        dist
    }
}

/// `2^k` grows with `k`.
proof fn lemma_pow2k_mono(a: nat, b: nat)
    requires
        a <= b,
    ensures
        pow2k(a) <= pow2k(b),
    decreases b,
{
    if a < b {
        lemma_pow2k_mono(a, (b - 1) as nat);
        lemma_pow2k_pos((b - 1) as nat);
    }
}

/// `2^k` is positive.
proof fn lemma_pow2k_pos(b: nat)
    ensures
        pow2k(b) >= 1,
    decreases b,
{
    if b > 0 {
        lemma_pow2k_pos((b - 1) as nat);
    }
}

/// Container `ci` is the next one expected at the exit of some row.
pub open spec fn seeked(seeks: Seq<usize>, ci: int) -> bool {
    exists|y: int| 0 <= y < N && y * N + #[trigger] seeks[y] == ci
}

/// Container `ci` stands somewhere on the ground.
pub open spec fn in_field(ground: Seq<Vec<Option<usize>>>, ci: int) -> bool {
    exists|y: int, x: int| 0 <= y < N && 0 <= x < N && #[trigger] at(ground, y, x) == Some(ci as usize)
}

/// The first position `ai >= from` of row `y` of `a` whose container is expected at an exit.
pub open spec fn first_seeked_from(a: Seq<Vec<usize>>, seeks: Seq<usize>, y: int, from: int) -> Option<int>
    decreases N - from,
{
    if from >= N || from < 0 {
        None
    } else if seeked(seeks, at(a, y, from) as int) {
        Some(from)
    } else {
        first_seeked_from(a, seeks, y, from + 1)
    }
}

/// For row `y`: how many arrivals away its next expected container is.
pub open spec fn row_wait(a: Seq<Vec<usize>>, s: &State, y: int) -> Option<int> {
    match first_seeked_from(a, s.seeks_of(), y, s.backyard_of()[y] as int) {
        Some(ai) => Some(ai - s.backyard_of()[y]),
        None => None,
    }
}

/// Among rows `0..k`, the row whose expected container arrives soonest, as `(wait, row)`,
/// the smaller row on ties.
pub open spec fn best_row(a: Seq<Vec<usize>>, s: &State, k: int) -> Option<(int, int)>
    decreases k,
{
    if k <= 0 {
        None
    } else {
        let prev = best_row(a, s, k - 1);
        match row_wait(a, s, k - 1) {
            Some(w) => match prev {
                Some(b) => if w < b.0 {
                    Some((w, k - 1))
                } else {
                    Some(b)
                },
                None => Some((w, k - 1)),
            },
            None => prev,
        }
    }
}

/// The cells, in order of preference, where a container waits for its turn to leave.
pub open spec fn spec_keep_order(k: int) -> (usize, usize) {
    if k == 0 {
        (1, 2)
    } else if k == 1 {
        (3, 2)
    } else if k == 2 {
        (0, 2)
    } else if k == 3 {
        (4, 2)
    } else if k == 4 {
        (0, 3)
    } else if k == 5 {
        (4, 3)
    } else if k == 6 {
        (1, 3)
    } else if k == 7 {
        (3, 3)
    } else if k == 8 {
        (2, 3)
    } else if k == 9 {
        (2, 2)
    } else if k == 10 {
        (0, 1)
    } else if k == 11 {
        (4, 1)
    } else if k == 12 {
        (1, 1)
    } else if k == 13 {
        (3, 1)
    } else {
        (2, 1)
    }
}

/// Number of waiting cells.
pub const KEEP_ORDER_LEN: usize = 15;

/// Waiting cell `k` of the preference order.
pub fn keep_order(k: usize) -> (r: (usize, usize))
    requires
        k < KEEP_ORDER_LEN,
    ensures
        r == spec_keep_order(k as int),
{
    if k == 0 {
        (1, 2)
    } else if k == 1 {
        (3, 2)
    } else if k == 2 {
        (0, 2)
    } else if k == 3 {
        (4, 2)
    } else if k == 4 {
        (0, 3)
    } else if k == 5 {
        (4, 3)
    } else if k == 6 {
        (1, 3)
    } else if k == 7 {
        (3, 3)
    } else if k == 8 {
        (2, 3)
    } else if k == 9 {
        (2, 2)
    } else if k == 10 {
        (0, 1)
    } else if k == 11 {
        (4, 1)
    } else if k == 12 {
        (1, 1)
    } else if k == 13 {
        (3, 1)
    } else {
        (2, 1)
    }
}

/// The first free waiting cell at or after position `k` of the preference order.
pub open spec fn first_free_keep(ground: Seq<Vec<Option<usize>>>, k: int) -> Option<(usize, usize)>
    decreases KEEP_ORDER_LEN - k,
{
    if k >= KEEP_ORDER_LEN || k < 0 {
        None
    } else if at(ground, spec_keep_order(k).0 as int, spec_keep_order(k).1 as int) is None {
        Some(spec_keep_order(k))
    } else {
        first_free_keep(ground, k + 1)
    }
}

/// The target cell chosen for container `ci`: a container expected at an exit goes to that
/// exit; the container at the left cell of the row whose expected container arrives soonest
/// goes to the first free waiting cell; any other container gets none.
pub open spec fn spec_ideal(a: Seq<Vec<usize>>, s: &State, ci: int) -> Option<(usize, usize)> {
    if seeked(s.seeks_of(), ci) && in_field(s.level(0), ci) {
        Some(((ci / (N as int)) as usize, (N - 1) as usize))
    } else {
        match best_row(a, s, N as int) {
            Some(b) => if at(s.level(0), b.1, 0) == Some(ci as usize) {
                first_free_keep(s.level(0), 0)
            } else {
                None
            },
            None => None,
        }
    }
}

impl State {
    /// The target cell of every container (see `spec_ideal`).
    #[verifier::rlimit(40)]
    pub fn gen_ideal(&self, a: &[Vec<usize>]) -> (ideal: Vec<Option<(usize, usize)>>)
        requires
            self.well_formed(),
            arrivals_ok(a@),
            best_row(a@, self, N as int) matches Some(b) ==> at(self.level(0), b.1, 0) is Some,
        ensures
            ideal@.len() == N * N,
            forall|ci: int| 0 <= ci < N * N ==> #[trigger] ideal@[ci] == spec_ideal(a@, self, ci),
    {
        let ghost ground = self.level(0);
        // containers expected at some exit
        let mut seeked_flag: Vec<bool> = Vec::new();
        for c in 0..N * N + 1
            invariant
                seeked_flag@.len() == c,
                forall|i: int| 0 <= i < c ==> !#[trigger] seeked_flag@[i],
        {
            seeked_flag.push(false);
        }
        for y in 0..N
            invariant
                self.well_formed(),
                seeked_flag@.len() == N * N + 1,
                forall|i: int|
                    0 <= i <= N * N ==> #[trigger] seeked_flag@[i] == exists|j: int|
                        0 <= j < y && j * N + #[trigger] self.seeks_of()[j] == i,
        {
            let c = y * N + self.seeks[y];
            assert(self.seeks_of()[y as int] <= N);
            let ghost old = seeked_flag@;
            seeked_flag.set(c, true);
            assert forall|i: int| 0 <= i <= N * N implies #[trigger] seeked_flag@[i] == exists|j: int|
                0 <= j < y + 1 && j * N + #[trigger] self.seeks_of()[j] == i by {
                if i == c {
                    assert(y * N + self.seeks_of()[y as int] == i);
                } else {
                    assert(seeked_flag@[i] == old[i]);
                    if exists|j: int| 0 <= j < y + 1 && j * N + #[trigger] self.seeks_of()[j] == i {
                        let j = choose|j: int| 0 <= j < y + 1 && j * N + #[trigger] self.seeks_of()[j] == i;
                        assert(j != y);
                    }
                }
            }
        }
        assert forall|i: int| 0 <= i <= N * N implies #[trigger] seeked_flag@[i] == seeked(
            self.seeks_of(),
            i,
        ) by {}
        // containers on the ground
        let mut field_flag: Vec<bool> = Vec::new();
        for c in 0..N * N
            invariant
                field_flag@.len() == c,
                forall|i: int| 0 <= i < c ==> !#[trigger] field_flag@[i],
        {
            field_flag.push(false);
        }
        for y in 0..N
            invariant
                self.well_formed(),
                ground == self.level(0),
                field_flag@.len() == N * N,
                forall|i: int|
                    0 <= i < N * N ==> #[trigger] field_flag@[i] == exists|j: int, x: int|
                        0 <= j < y && 0 <= x < N && #[trigger] at(ground, j, x) == Some(i as usize),
        {
            for x in 0..N
                invariant
                    self.well_formed(),
                    ground == self.level(0),
                    y < N,
                    field_flag@.len() == N * N,
                    forall|i: int|
                        0 <= i < N * N ==> #[trigger] field_flag@[i] == exists|j: int, w: int|
                            (0 <= j < y && 0 <= w < N || j == y && 0 <= w < x) && #[trigger] at(
                                ground,
                                j,
                                w,
                            ) == Some(i as usize),
            {
                assert(self.container@[0]@ == ground);
                if let Some(cid) = self.container[0][y][x] {
                    assert(at(ground, y as int, x as int) == Some(cid));
                    let ghost old = field_flag@;
                    field_flag.set(cid, true);
                    assert forall|i: int| 0 <= i < N * N implies #[trigger] field_flag@[i] == exists|
                        j: int,
                        w: int,
                    |
                        (0 <= j < y && 0 <= w < N || j == y && 0 <= w < x + 1) && #[trigger] at(
                            ground,
                            j,
                            w,
                        ) == Some(i as usize) by {
                        if i == cid {
                            assert(at(ground, y as int, x as int) == Some(i as usize));
                        } else {
                            assert(field_flag@[i] == old[i]);
                        }
                    }
                } else {
                    assert forall|i: int| 0 <= i < N * N implies #[trigger] field_flag@[i] == exists|
                        j: int,
                        w: int,
                    |
                        (0 <= j < y && 0 <= w < N || j == y && 0 <= w < x + 1) && #[trigger] at(
                            ground,
                            j,
                            w,
                        ) == Some(i as usize) by {
                        if exists|j: int, w: int|
                            (0 <= j < y && 0 <= w < N || j == y && 0 <= w < x + 1) && #[trigger] at(
                                ground,
                                j,
                                w,
                            ) == Some(i as usize) {
                            let (j, w) = choose|j: int, w: int|
                                (0 <= j < y && 0 <= w < N || j == y && 0 <= w < x + 1) && #[trigger] at(
                                    ground,
                                    j,
                                    w,
                                ) == Some(i as usize);
                            assert(!(j == y && w == x));
                        }
                    }
                }
            }
        }
        // phase one: containers expected at an exit go there
        let mut ideal: Vec<Option<(usize, usize)>> = Vec::new();
        for ci in 0..N * N
            invariant
                self.well_formed(),
                ground == self.level(0),
                seeked_flag@.len() == N * N + 1,
                field_flag@.len() == N * N,
                forall|i: int| 0 <= i <= N * N ==> #[trigger] seeked_flag@[i] == seeked(self.seeks_of(), i),
                forall|i: int| 0 <= i < N * N ==> #[trigger] field_flag@[i] == in_field(ground, i),
                ideal@.len() == ci,
                forall|i: int|
                    0 <= i < ci ==> #[trigger] ideal@[i] == if seeked(self.seeks_of(), i) && in_field(
                        ground,
                        i,
                    ) {
                        Some(((i / (N as int)) as usize, (N - 1) as usize))
                    } else {
                        None
                    },
        {
            if seeked_flag[ci] && field_flag[ci] {
                ideal.push(Some((ci / N, N - 1)));
            } else {
                ideal.push(None);
            }
        }
        // the row whose expected container arrives soonest
        let mut best: Option<(usize, usize)> = None;
        for y in 0..N
            invariant
                self.well_formed(),
                arrivals_ok(a@),
                seeked_flag@.len() == N * N + 1,
                forall|i: int| 0 <= i <= N * N ==> #[trigger] seeked_flag@[i] == seeked(self.seeks_of(), i),
                match best {
                    Some(b) => best_row(a@, self, y as int) == Some((b.0 as int, b.1 as int)) && b.1
                        < y,
                    None => best_row(a@, self, y as int) is None,
                },
        {
            let b0 = self.backyard[y];
            let mut ai = b0;
            assert(b0 <= N);
            while ai < N && !seeked_flag[a[y][ai]]
                invariant
                    self.well_formed(),
                    arrivals_ok(a@),
                    y < N,
                    b0 == self.backyard_of()[y as int],
                    b0 <= ai <= N,
                    seeked_flag@.len() == N * N + 1,
                    forall|i: int| 0 <= i <= N * N ==> #[trigger] seeked_flag@[i] == seeked(self.seeks_of(), i),
                    first_seeked_from(a@, self.seeks_of(), y as int, b0 as int) == first_seeked_from(
                        a@,
                        self.seeks_of(),
                        y as int,
                        ai as int,
                    ),
                decreases N - ai,
            {
                assert(at(a@, y as int, ai as int) < N * N);
                ai += 1;
            }
            if ai < N {
                assert(at(a@, y as int, ai as int) < N * N);
                let r = ai - b0;
                assert(row_wait(a@, self, y as int) == Some(r as int));
                best = match best {
                    Some(b) => if r < b.0 {
                        Some((r, y))
                    } else {
                        Some(b)
                    },
                    None => Some((r, y)),
                };
            } else {
                assert(row_wait(a@, self, y as int) is None);
            }
        }
        if let Some((_, y)) = best {
            assert(self.container@[0]@ == ground);
            let ci = self.container[0][y][0].unwrap();
            assert(at(ground, y as int, 0) == Some(ci));
            if ideal[ci].is_none() {
                let mut k: usize = 0;
                while k < KEEP_ORDER_LEN && self.container[0][keep_order(k).0][keep_order(k).1].is_some()
                    invariant
                        self.well_formed(),
                        ground == self.level(0),
                        k <= KEEP_ORDER_LEN,
                        first_free_keep(ground, 0) == first_free_keep(ground, k as int),
                    decreases KEEP_ORDER_LEN - k,
                {
                    k += 1;
                }
                if k < KEEP_ORDER_LEN {
                    let cell = keep_order(k);
                    ideal.set(ci, Some(cell));
                }
            }
        }
        ideal
    }
}

/// The plan of one crane from one planning step: the cells `(t, y, x)` it occupies, latest
/// first, and its actions in time order.
pub struct PlanUpdate {
    pub hi: usize,
    pub hand: Vec<(usize, usize, usize)>,
    pub ans_acts: Vec<usize>,
}

impl PlanUpdate {
    /// An empty update for crane `hi`.
    pub fn new(hi: usize) -> (r: Self)
        ensures
            r.hi == hi,
            r.hand@.len() == 0,
            r.ans_acts@.len() == 0,
    {
        PlanUpdate { hi, hand: Vec::new(), ans_acts: Vec::new() }
    }
}

/// `pre` names, for every time step and cell, a cell of the yard.
pub open spec fn pre_ok(pre: Seq<Vec<Vec<(usize, usize)>>>) -> bool {
    &&& pre.len() == T
    &&& forall|t: int| 0 <= t < T ==> grid_ok(#[trigger] pre[t]@)
    &&& forall|t: int, y: int, x: int|
        0 <= t < T && 0 <= y < N && 0 <= x < N ==> (#[trigger] at(pre[t]@, y, x)).0 < N && at(
            pre[t]@,
            y,
            x,
        ).1 < N
}

/// The cell reached after following `pre` back `s` steps from cell `(ly, lx)` at time `lt`.
pub open spec fn trace_cell(pre: Seq<Vec<Vec<(usize, usize)>>>, lt: int, ly: usize, lx: usize, s: nat) -> (
    usize,
    usize,
)
    decreases s,
{
    if s == 0 {
        (ly, lx)
    } else {
        let c = trace_cell(pre, lt, ly, lx, (s - 1) as nat);
        at(pre[lt - (s - 1)]@, c.0 as int, c.1 as int)
    }
}

/// The action whose move is `(dy, dx)`, if any.
pub open spec fn code_of(dy: int, dx: int) -> Option<usize> {
    if (dy, dx) == (0int, -1int) {
        Some(0usize)
    } else if (dy, dx) == (0int, 1int) {
        Some(1usize)
    } else if (dy, dx) == (-1int, 0int) {
        Some(2usize)
    } else if (dy, dx) == (1int, 0int) {
        Some(3usize)
    } else if (dy, dx) == (0int, 0int) {
        Some(4usize)
    } else {
        None
    }
}

/// The action of move `(dy, dx)` as a sequence, if its number is below `bound`.
pub open spec fn codes_below(dy: int, dx: int, bound: int) -> Seq<usize> {
    match code_of(dy, dx) {
        Some(c) => if c < bound {
            seq![c]
        } else {
            Seq::empty()
        },
        None => Seq::empty(),
    }
}

/// The actions of the first `s` backward steps of a trace, latest action first.
pub open spec fn trace_acts(pre: Seq<Vec<Vec<(usize, usize)>>>, lt: int, ly: usize, lx: usize, s: nat) -> Seq<
    usize,
>
    decreases s,
{
    if s == 0 {
        Seq::empty()
    } else {
        let prev = trace_acts(pre, lt, ly, lx, (s - 1) as nat);
        let c0 = trace_cell(pre, lt, ly, lx, (s - 1) as nat);
        let c1 = trace_cell(pre, lt, ly, lx, s);
        match code_of(c0.0 - c1.0, c0.1 - c1.1) {
            Some(a) => prev.push(a),
            None => prev,
        }
    }
}

/// The solver: the arrival order of the containers.
pub struct Solver {
    pub a: Vec<Vec<usize>>,
}

impl Solver {
    /// A solver for the arrival order `a`.
    pub fn new(a: Vec<Vec<usize>>) -> (r: Self)
        ensures
            r.a == a,
    {
        Solver { a }
    }

    /// Steps for crane `hi` from `(cy, cx)` to the target `(ty, tx)`: none if the target holds a
    /// container; the large crane `0` flies over containers (Manhattan distance), the others
    /// use the table `dist0`.
    pub fn calc_go_move(
        hi: usize,
        cy: usize,
        cx: usize,
        ty: usize,
        tx: usize,
        dist0: &[Vec<Vec<Vec<Option<i64>>>>],
        container: &Vec<Vec<Vec<Option<usize>>>>,
    ) -> (r: Option<i64>)
        requires
            table_ok(dist0@),
            container@.len() >= 1,
            grid_ok(container@[0]@),
            cy < N,
            cx < N,
            ty < N,
            tx < N,
        ensures
            r == if cy == ty && cx == tx {
                Some(0i64)
            } else if at(container@[0]@, ty as int, tx as int) is Some {
                None
            } else if hi == 0 {
                Some(
                    ((if ty >= cy {
                        ty - cy
                    } else {
                        cy - ty
                    }) + (if tx >= cx {
                        tx - cx
                    } else {
                        cx - tx
                    })) as i64,
                )
            } else {
                dist0@[cy as int]@[cx as int]@[ty as int]@[tx as int]
            },
    {
        if cy == ty && cx == tx {
            return Some(0);
        }
        if container[0][ty][tx].is_some() {
            return None;
        }
        if hi == 0 {
            let dy: i64 = ty as i64 - cy as i64;
            let dx: i64 = tx as i64 - cx as i64;
            let ady: i64 = if dy < 0 { -dy } else { dy };
            let adx: i64 = if dx < 0 { -dx } else { dx };
            Some(ady + adx)
        } else if let Some(d) = dist0[cy][cx][ty][tx] {
            Some(d)
        } else {
            None
        }
    }

    /// Follow `pre` back from cell `(ly, lx)` at time `lt` to time `ti`: the cells passed, latest
    /// first, and the actions taken, in time order.
    pub fn back_trace(
        hi: usize,
        ti: usize,
        lt: usize,
        ly: usize,
        lx: usize,
        pre: &[Vec<Vec<(usize, usize)>>],
    ) -> (upd: PlanUpdate)
        requires
            pre_ok(pre@),
            ti <= lt < T,
            ly < N,
            lx < N,
        ensures
            upd.hi == hi,
            upd.hand@.len() == lt - ti + 1,
            forall|s: int|
                0 <= s <= lt - ti ==> #[trigger] upd.hand@[s] == ((lt - s) as usize, trace_cell(
                    pre@,
                    lt as int,
                    ly,
                    lx,
                    s as nat,
                ).0, trace_cell(pre@, lt as int, ly, lx, s as nat).1),
            upd.ans_acts@ == trace_acts(pre@, lt as int, ly, lx, (lt - ti) as nat).reverse(),
    {
        let mut upd = PlanUpdate::new(hi);
        let mut t = lt;
        let mut y = ly;
        let mut x = lx;
        let mut adds: Vec<usize> = Vec::new();
        upd.hand.push((t, y, x));
        while t > ti
            invariant
                pre_ok(pre@),
                ti <= t <= lt < T,
                y < N,
                x < N,
                upd.hi == hi,
                (y, x) == trace_cell(pre@, lt as int, ly, lx, (lt - t) as nat),
                upd.hand@.len() == lt - t + 1,
                forall|s: int|
                    0 <= s <= lt - t ==> #[trigger] upd.hand@[s] == ((lt - s) as usize, trace_cell(
                        pre@,
                        lt as int,
                        ly,
                        lx,
                        s as nat,
                    ).0, trace_cell(pre@, lt as int, ly, lx, s as nat).1),
                adds@ == trace_acts(pre@, lt as int, ly, lx, (lt - t) as nat),
                upd.ans_acts@.len() == 0,
            decreases t,
        {
            let (py, px) = pre[t][y][x];
            assert((py, px) == at(pre@[t as int]@, y as int, x as int));
            assert(trace_cell(pre@, lt as int, ly, lx, (lt - t + 1) as nat) == (py, px));
            t -= 1;
            let mdy: i64 = y as i64 - py as i64;
            let mdx: i64 = x as i64 - px as i64;
            let ghost before = adds@;
            for ai in 0..5
                invariant
                    adds@ == before + codes_below(mdy as int, mdx as int, ai as int),
            {
                let (ddy, ddx) = dydx(ai);
                if ddy == mdy && ddx == mdx {
                    adds.push(ai);
                }
            }
            y = py;
            x = px;
            upd.hand.push((t, y, x));
        }
        reverse_vec(&mut adds);
        for k in 0..adds.len()
            invariant
                upd.hi == hi,
                upd.ans_acts@ == adds@.subrange(0, k as int),
                upd.hand@.len() == lt - ti + 1,
                forall|s: int|
                    0 <= s <= lt - ti ==> #[trigger] upd.hand@[s] == ((lt - s) as usize, trace_cell(
                        pre@,
                        lt as int,
                        ly,
                        lx,
                        s as nat,
                    ).0, trace_cell(pre@, lt as int, ly, lx, s as nat).1),
        {
            upd.ans_acts.push(adds[k]);
        }
        assert(upd.ans_acts@ == adds@.subrange(0, adds@.len() as int));
        upd
    }

    /// Write the cells of `upd` into the plan of its crane and append its actions.
    pub fn update_back_trace(upd: PlanUpdate, hand: &mut Hand, ans_acts: &mut Vec<Vec<usize>>)
        requires
            plan_ok(old(hand).plan@),
            upd.hi < old(ans_acts)@.len(),
            forall|k: int|
                0 <= k < upd.hand@.len() ==> (#[trigger] upd.hand@[k]).0 < T && upd.hand@[k].1 < N
                    && upd.hand@[k].2 < N,
        ensures
            plan_ok(final(hand).plan@),
            forall|t: int, y: int, x: int|
                0 <= t < T && 0 <= y < N && 0 <= x < N ==> #[trigger] at(final(hand).plan@[t]@, y, x)
                    == if exists|k: int|
                    0 <= k < upd.hand@.len() && #[trigger] upd.hand@[k] == (
                        t as usize,
                        y as usize,
                        x as usize,
                    ) {
                    Some(upd.hi)
                } else {
                    at(old(hand).plan@[t]@, y, x)
                },
            final(ans_acts)@.len() == old(ans_acts)@.len(),
            final(ans_acts)@[upd.hi as int]@ == old(ans_acts)@[upd.hi as int]@ + upd.ans_acts@,
            forall|h: int|
                0 <= h < old(ans_acts)@.len() && h != upd.hi ==> #[trigger] final(ans_acts)@[h]
                    == old(ans_acts)@[h],
    {
        let ghost p0 = hand.plan@;
        for k in 0..upd.hand.len()
            invariant
                plan_ok(hand.plan@),
                plan_ok(p0),
                forall|k: int|
                    0 <= k < upd.hand@.len() ==> (#[trigger] upd.hand@[k]).0 < T && upd.hand@[k].1 < N
                        && upd.hand@[k].2 < N,
                forall|t: int, y: int, x: int|
                    0 <= t < T && 0 <= y < N && 0 <= x < N ==> #[trigger] at(hand.plan@[t]@, y, x)
                        == if exists|j: int|
                        0 <= j < k && #[trigger] upd.hand@[j] == (t as usize, y as usize, x as usize) {
                        Some(upd.hi)
                    } else {
                        at(p0[t]@, y, x)
                    },
        {
            let (t, y, x) = upd.hand[k];
            let ghost old = hand.plan@;
            hand.plan[t][y].set(x, Some(upd.hi));
            assert(grid_ok(hand.plan@[t as int]@)) by {
                assert forall|j: int| 0 <= j < N implies (#[trigger] hand.plan@[t as int]@[j])@.len() == N by {
                    if j != y {
                        assert(hand.plan@[t as int]@[j] == old[t as int]@[j]);
                    }
                }
            }
            assert forall|s: int| 0 <= s < T implies grid_ok(#[trigger] hand.plan@[s]@) by {
                if s != t {
                    assert(hand.plan@[s] == old[s]);
                }
            }
            assert forall|t2: int, y2: int, x2: int|
                0 <= t2 < T && 0 <= y2 < N && 0 <= x2 < N implies #[trigger] at(hand.plan@[t2]@, y2, x2)
                    == if exists|j: int|
                    0 <= j < k + 1 && #[trigger] upd.hand@[j] == (t2 as usize, y2 as usize, x2 as usize) {
                    Some(upd.hi)
                } else {
                    at(p0[t2]@, y2, x2)
                } by {
                if t2 == t && y2 == y && x2 == x {
                    assert(upd.hand@[k as int] == (t2 as usize, y2 as usize, x2 as usize));
                } else {
                    if t2 != t {
                        assert(hand.plan@[t2] == old[t2]);
                    } else if y2 != y {
                        assert(hand.plan@[t2]@[y2] == old[t2]@[y2]);
                    }
                    assert(at(hand.plan@[t2]@, y2, x2) == at(old[t2]@, y2, x2));
                    if exists|j: int|
                        0 <= j < k + 1 && #[trigger] upd.hand@[j] == (t2 as usize, y2 as usize, x2 as usize) {
                        let j = choose|j: int|
                            0 <= j < k + 1 && #[trigger] upd.hand@[j] == (
                                t2 as usize,
                                y2 as usize,
                                x2 as usize,
                            );
                        assert(j != k);
                    }
                }
            }
        }
        let hi = upd.hi;
        let ghost a0 = ans_acts@;
        for k in 0..upd.ans_acts.len()
            invariant
                hi == upd.hi,
                hi < ans_acts@.len(),
                ans_acts@.len() == a0.len(),
                ans_acts@[hi as int]@ == a0[hi as int]@ + upd.ans_acts@.subrange(0, k as int),
                forall|h: int| 0 <= h < a0.len() && h != hi ==> #[trigger] ans_acts@[h] == a0[h],
        {
            let act = upd.ans_acts[k];
            ans_acts[hi].push(act);
            assert(ans_acts@[hi as int]@ == a0[hi as int]@ + upd.ans_acts@.subrange(0, k + 1));
        }
        assert(upd.ans_acts@.subrange(0, upd.ans_acts@.len() as int) == upd.ans_acts@);
    }
}

/// `s` holds one `N x N` grid per time step.
pub open spec fn cube_ok<A>(s: Seq<Vec<Vec<A>>>) -> bool {
    &&& s.len() == T
    &&& forall|t: int| 0 <= t < T ==> grid_ok(#[trigger] s[t]@)
}

/// Bit `c` of the mask `m` (cells are numbered row by row).
pub open spec fn mask_bit(m: usize, c: int) -> bool {
    (m >> (c as usize)) & 1usize != 0
}

/// The cell from which action `k` leads to cell `c1`, if it lies in the yard.
pub open spec fn pred_of(c1: int, k: int) -> Option<int> {
    let y0 = cy(c1) - spec_dydx(k).0;
    let x0 = cx(c1) - spec_dydx(k).1;
    if 0 <= y0 < N && 0 <= x0 < N {
        Some(y0 * N + x0)
    } else {
        None
    }
}

/// A crane standing on cell `c0` at time `t` may be on cell `c1` at time `t + 1`: no crane is
/// planned on `c1` then, the crane planned on `c1` at time `t` (if any) is not the one planned
/// on `c0` at `t + 1` (no swap), and `c1` is not blocked.
pub open spec fn legal_step(plan: Seq<Vec<Vec<Option<usize>>>>, blocked: usize, t: int, c0: int, c1: int) -> bool {
    &&& at(plan[t + 1]@, cy(c1), cx(c1)) is None
    &&& !(at(plan[t]@, cy(c1), cx(c1)) is Some && at(plan[t]@, cy(c1), cx(c1)) == at(
        plan[t + 1]@,
        cy(c0),
        cx(c0),
    ))
    &&& !mask_bit(blocked, c1)
}

/// Cost of action `k` taken from time `t` in a search started at `t0`: staying is free, a move
/// costs more the later it happens.
pub open spec fn step_cost(t0: int, t: int, k: int) -> int {
    if k == 4 {
        0
    } else {
        t + 2 - t0
    }
}

/// Candidate `a` beats candidate `b`: smaller total, then smaller distance of the cell it comes
/// from, then larger cell number.
pub open spec fn beats(a: (int, int, int), b: (int, int, int)) -> bool {
    a.0 < b.0 || (a.0 == b.0 && (a.1 < b.1 || (a.1 == b.1 && a.2 > b.2)))
}

/// The best of the first `kk` ways to arrive on cell `c` at time `t > t0` in the search from
/// cell `s0` at time `t0`, as `(total, distance of the previous cell, previous cell)`.
pub open spec fn reach(
    plan: Seq<Vec<Vec<Option<usize>>>>,
    blocked: usize,
    t0: int,
    s0: int,
    t: int,
    c: int,
    kk: int,
) -> Option<(int, int, int)>
    decreases t - t0, kk,
{
    if t <= t0 || kk <= 0 {
        None
    } else {
        let prev = reach(plan, blocked, t0, s0, t, c, kk - 1);
        let k = kk - 1;
        match pred_of(c, k) {
            Some(c0) => if legal_step(plan, blocked, t - 1, c0, c) {
                let d0 = if t - 1 == t0 {
                    if c0 == s0 {
                        Some(0int)
                    } else {
                        None
                    }
                } else {
                    match reach(plan, blocked, t0, s0, t - 1, c0, 5) {
                        Some(r) => Some(r.0),
                        None => None,
                    }
                };
                match d0 {
                    Some(d) => {
                        let cand = (d + step_cost(t0, t - 1, k), d, c0);
                        match prev {
                            Some(b) => if beats(cand, b) {
                                Some(cand)
                            } else {
                                prev
                            },
                            None => Some(cand),
                        }
                    },
                    None => prev,
                }
            } else {
                prev
            },
            None => prev,
        }
    }
}

/// The previous cell chosen for cell `c` at time `t > t0` (meaningful when it is reached).
pub open spec fn reach_prev(
    plan: Seq<Vec<Vec<Option<usize>>>>,
    blocked: usize,
    t0: int,
    s0: int,
    t: int,
    c: int,
) -> int {
    match reach(plan, blocked, t0, s0, t, c, 5) {
        Some(r) => r.2,
        None => 0,
    }
}

/// Distance of cell `c` at time `t` in the search from `s0` at `t0`, `None` when unreachable.
pub open spec fn search_dist(
    plan: Seq<Vec<Vec<Option<usize>>>>,
    blocked: usize,
    t0: int,
    s0: int,
    t: int,
    c: int,
) -> Option<int> {
    if t == t0 {
        if c == s0 {
            Some(0)
        } else {
            None
        }
    } else {
        match reach(plan, blocked, t0, s0, t, c, 5) {
            Some(r) => Some(r.0),
            None => None,
        }
    }
}

/// Among the first `k` cells, the first one of the target mask reached at time `t1` with the
/// least distance, as `(distance, cell)`.
pub open spec fn best_target(
    plan: Seq<Vec<Vec<Option<usize>>>>,
    blocked: usize,
    t0: int,
    s0: int,
    t1: int,
    tgt: usize,
    k: int,
) -> Option<(int, int)>
    decreases k,
{
    if k <= 0 {
        None
    } else {
        let prev = best_target(plan, blocked, t0, s0, t1, tgt, k - 1);
        let c = k - 1;
        if mask_bit(tgt, c) && search_dist(plan, blocked, t0, s0, t1, c) is Some {
            let d = search_dist(plan, blocked, t0, s0, t1, c)->0;
            match prev {
                Some(b) => if d < b.0 {
                    Some((d, c))
                } else {
                    prev
                },
                None => Some((d, c)),
            }
        } else {
            prev
        }
    }
}

/// Distances found by a search are at most `T + 1` per elapsed step, and the previous cell
/// lies in the yard.
proof fn lemma_reach_bound(
    plan: Seq<Vec<Vec<Option<usize>>>>,
    blocked: usize,
    t0: int,
    s0: int,
    t: int,
    c: int,
    kk: int,
)
    requires
        0 <= t0 <= t <= T,
    ensures
        reach(plan, blocked, t0, s0, t, c, kk) matches Some(r) ==> {
            &&& 0 <= r.1 <= (t - 1 - t0) * (T + 1)
            &&& 0 <= r.0 <= (t - t0) * (T + 1)
            &&& 0 <= r.2 < N * N
        },
    decreases t - t0, kk,
{
    if t <= t0 || kk <= 0 {
    } else {
        lemma_reach_bound(plan, blocked, t0, s0, t, c, kk - 1);
        let k = kk - 1;
        if let Some(c0) = pred_of(c, k) {
            lemma_unflat(cy(c) - spec_dydx(k).0, cx(c) - spec_dydx(k).1);
            if t - 1 > t0 {
                lemma_reach_bound(plan, blocked, t0, s0, t - 1, c0, 5);
            }
            assert((t - 1 - t0) * (T + 1) + (T + 1) == (t - t0) * (T + 1)) by (nonlinear_arith);
            assert(0 <= (t - 1 - t0) * (T + 1)) by (nonlinear_arith)
                requires
                    t - 1 - t0 >= 0,
            ;
        }
    }
}

/// The row and column of the flat cell index `c`.
pub fn cell_of(c: usize) -> (r: (usize, usize))
    requires
        c < N * N,
    ensures
        r.0 == cy(c as int),
        r.1 == cx(c as int),
        r.0 < N,
        r.1 < N,
        r.0 * N + r.1 == c,
{
    proof {
        lemma_flat(c as int);
    }
    (c / N, c % N)
}

/// The distance entries `dist` after a search from `s0` at `t0` with stamp `pv` has settled the
/// time steps `t0..=t`, starting from the entries `d0`.
pub open spec fn dist_settled(
    dist: Seq<Vec<Vec<(usize, usize)>>>,
    d0: Seq<Vec<Vec<(usize, usize)>>>,
    plan: Seq<Vec<Vec<Option<usize>>>>,
    blocked: usize,
    t0: int,
    s0: int,
    t: int,
    pv: usize,
) -> bool {
    forall|u: int, y: int, x: int|
        0 <= u < T && 0 <= y < N && 0 <= x < N ==> #[trigger] at(dist[u]@, y, x) == if t0 <= u <= t
            && search_dist(plan, blocked, t0, s0, u, y * N + x) is Some {
            (pv, search_dist(plan, blocked, t0, s0, u, y * N + x)->0 as usize)
        } else {
            at(d0[u]@, y, x)
        }
}

/// The predecessor entries `pre` after the search has settled the time steps `t0..=t`.
pub open spec fn pre_settled(
    pre: Seq<Vec<Vec<(usize, usize)>>>,
    p0: Seq<Vec<Vec<(usize, usize)>>>,
    plan: Seq<Vec<Vec<Option<usize>>>>,
    blocked: usize,
    t0: int,
    s0: int,
    t: int,
) -> bool {
    forall|u: int, y: int, x: int|
        0 <= u < T && 0 <= y < N && 0 <= x < N ==> #[trigger] at(pre[u]@, y, x) == if t0 < u <= t
            && reach(plan, blocked, t0, s0, u, y * N + x, 5) is Some {
            (
                cy(reach_prev(plan, blocked, t0, s0, u, y * N + x)) as usize,
                cx(reach_prev(plan, blocked, t0, s0, u, y * N + x)) as usize,
            )
        } else {
            at(p0[u]@, y, x)
        }
}

/// Write `v` at `(t, y, x)` of a cube: only that entry changes.
proof fn lemma_cube_set<A>(old: Seq<Vec<Vec<A>>>, new: Seq<Vec<Vec<A>>>, t: int, y: int, x: int, v: A)
    requires
        cube_ok(old),
        0 <= t < T,
        0 <= y < N,
        0 <= x < N,
        new.len() == old.len(),
        forall|u: int| 0 <= u < T && u != t ==> new[u] == old[u],
        new[t]@.len() == N,
        forall|z: int| 0 <= z < N && z != y ==> new[t]@[z] == old[t]@[z],
        new[t]@[y]@ == old[t]@[y]@.update(x, v),
    ensures
        cube_ok(new),
        forall|u: int, z: int, w: int|
            0 <= u < T && 0 <= z < N && 0 <= w < N ==> #[trigger] at(new[u]@, z, w) == if u == t && z
                == y && w == x {
                v
            } else {
                at(old[u]@, z, w)
            },
{
    assert forall|u: int| 0 <= u < T implies grid_ok(#[trigger] new[u]@) by {
        if u == t {
            assert forall|z: int| 0 <= z < N implies (#[trigger] new[u]@[z])@.len() == N by {
                if z != y {
                    assert(new[u]@[z] == old[u]@[z]);
                }
            }
        }
    }
    assert forall|u: int, z: int, w: int| 0 <= u < T && 0 <= z < N && 0 <= w < N implies #[trigger] at(
        new[u]@,
        z,
        w,
    ) == if u == t && z == y && w == x {
        v
    } else {
        at(old[u]@, z, w)
    } by {
        if u != t {
            assert(new[u] == old[u]);
        } else if z != y {
            assert(new[u]@[z] == old[u]@[z]);
        }
    }
}

/// Two options of crane ids are equal.
fn opt_eq(a: Option<usize>, b: Option<usize>) -> (r: bool)
    ensures
        r == (a == b),
{
    match (a, b) {
        (Some(x), Some(y)) => x == y,
        (None, None) => true,
        _ => false,
    }
}

impl Solver {
    /// Search the time-expanded yard for crane `_hi` leaving cell `start` at time `ti0`: the
    /// shortest distances to every cell at every time up to `ti1`, stamped with `*p`, are
    /// written to `dist` and the chosen previous cells to `pre` (see `reach`); the result is the
    /// first cell of `tgt_area` reached at `ti1` with the least distance. `*p` is decremented.
    #[verifier::rlimit(80)]
    pub fn hand_motion(
        _hi: usize,
        start: (usize, usize),
        ti0: usize,
        ti1: usize,
        tgt_area: usize,
        p: &mut usize,
        static_block: usize,
        hand: &Hand,
        dist: &mut Vec<Vec<Vec<(usize, usize)>>>,
        pre: &mut Vec<Vec<Vec<(usize, usize)>>>,
    ) -> (lst: Option<(usize, usize)>)
        requires
            plan_ok(hand.plan@),
            ti0 <= ti1 < T,
            start.0 < N,
            start.1 < N,
            cube_ok(old(dist)@),
            cube_ok(old(pre)@),
            *old(p) >= 1,
            forall|u: int, y: int, x: int|
                ti0 <= u <= ti1 && 0 <= y < N && 0 <= x < N ==> (#[trigger] at(old(dist)@[u]@, y, x)).0
                    > *old(p),
        ensures
            *final(p) == *old(p) - 1,
            cube_ok(final(dist)@),
            cube_ok(final(pre)@),
            dist_settled(
                final(dist)@,
                old(dist)@,
                hand.plan@,
                static_block,
                ti0 as int,
                start.0 * N + start.1,
                ti1 as int,
                *old(p),
            ),
            pre_settled(
                final(pre)@,
                old(pre)@,
                hand.plan@,
                static_block,
                ti0 as int,
                start.0 * N + start.1,
                ti1 as int,
            ),
            lst == match best_target(
                hand.plan@,
                static_block,
                ti0 as int,
                start.0 * N + start.1,
                ti1 as int,
                tgt_area,
                (N * N) as int,
            ) {
                Some(b) => Some((cy(b.1) as usize, cx(b.1) as usize)),
                None => None,
            },
    {
        let (sy, sx) = start;
        let s0: usize = sy * N + sx;
        let pv = *p;
        let ghost plan = hand.plan@;
        let ghost dist0 = dist@;
        let ghost pre0 = pre@;
        proof {
            lemma_unflat(sy as int, sx as int);
        }
        dist[ti0][sy].set(sx, (pv, 0));
        proof {
            lemma_cube_set(dist0, dist@, ti0 as int, sy as int, sx as int, (pv, 0usize));
            assert forall|u: int, y: int, x: int|
                0 <= u < T && 0 <= y < N && 0 <= x < N implies #[trigger] at(dist@[u]@, y, x) == if ti0 <= u
                    <= ti0 && search_dist(plan, static_block, ti0 as int, s0 as int, u, y * N + x) is Some {
                (pv, search_dist(plan, static_block, ti0 as int, s0 as int, u, y * N + x)->0 as usize)
            } else {
                at(dist0[u]@, y, x)
            } by {
                if u == ti0 && y * N + x == s0 {
                    lemma_unflat(y, x);
                    lemma_flat_inj(y * N + x, s0 as int);
                }
            }
        }
        let mut t = ti0;
        while t < ti1
            invariant
                plan == hand.plan@,
                plan_ok(plan),
                ti0 <= t <= ti1 < T,
                s0 < N * N,
                pv == *old(p),
                cube_ok(dist0),
                cube_ok(pre0),
                cube_ok(dist@),
                cube_ok(pre@),
                forall|u: int, y: int, x: int|
                    ti0 <= u <= ti1 && 0 <= y < N && 0 <= x < N ==> (#[trigger] at(dist0[u]@, y, x)).0 > pv,
                dist_settled(dist@, dist0, plan, static_block, ti0 as int, s0 as int, t as int, pv),
                pre_settled(pre@, pre0, plan, static_block, ti0 as int, s0 as int, t as int),
            decreases ti1 - t,
        {
            let t1 = t + 1;
            let cost: usize = t1 - ti0 + 1;
            for c1 in 0..N * N
                invariant
                    plan == hand.plan@,
                    plan_ok(plan),
                    ti0 <= t < t1 <= ti1 < T,
                    t1 == t + 1,
                    cost == t1 - ti0 + 1,
                    s0 < N * N,
                    pv == *old(p),
                    cube_ok(dist0),
                    cube_ok(pre0),
                    cube_ok(dist@),
                    cube_ok(pre@),
                    forall|u: int, y: int, x: int|
                        ti0 <= u <= ti1 && 0 <= y < N && 0 <= x < N ==> (#[trigger] at(dist0[u]@, y, x)).0
                            > pv,
                    forall|u: int, y: int, x: int|
                        0 <= u < T && 0 <= y < N && 0 <= x < N ==> #[trigger] at(dist@[u]@, y, x) == if (
                        ti0 <= u <= t || (u == t1 && y * N + x < c1)) && search_dist(
                            plan,
                            static_block,
                            ti0 as int,
                            s0 as int,
                            u,
                            y * N + x,
                        ) is Some {
                            (
                                pv,
                                search_dist(plan, static_block, ti0 as int, s0 as int, u, y * N + x)->0 as usize,
                            )
                        } else {
                            at(dist0[u]@, y, x)
                        },
                    forall|u: int, y: int, x: int|
                        0 <= u < T && 0 <= y < N && 0 <= x < N ==> #[trigger] at(pre@[u]@, y, x) == if (
                        ti0 < u <= t || (u == t1 && y * N + x < c1)) && reach(
                            plan,
                            static_block,
                            ti0 as int,
                            s0 as int,
                            u,
                            y * N + x,
                            5,
                        ) is Some {
                            (
                                cy(reach_prev(plan, static_block, ti0 as int, s0 as int, u, y * N + x)) as usize,
                                cx(reach_prev(plan, static_block, ti0 as int, s0 as int, u, y * N + x)) as usize,
                            )
                        } else {
                            at(pre0[u]@, y, x)
                        },
            {
                let (y1, x1) = cell_of(c1);
                let mut best: Option<(usize, usize, usize)> = None;
                for k in 0..5
                    invariant
                        plan == hand.plan@,
                        plan_ok(plan),
                        ti0 <= t < t1 <= ti1 < T,
                        t1 == t + 1,
                        cost == t1 - ti0 + 1,
                        s0 < N * N,
                        c1 < N * N,
                        y1 == cy(c1 as int),
                        x1 == cx(c1 as int),
                        y1 < N,
                        x1 < N,
                        pv == *old(p),
                        cube_ok(dist@),
                        forall|u: int, y: int, x: int|
                            ti0 <= u <= ti1 && 0 <= y < N && 0 <= x < N ==> (#[trigger] at(dist0[u]@, y, x)).0
                                > pv,
                        forall|y: int, x: int|
                            0 <= y < N && 0 <= x < N ==> #[trigger] at(dist@[t as int]@, y, x) == if search_dist(
                                plan,
                                static_block,
                                ti0 as int,
                                s0 as int,
                                t as int,
                                y * N + x,
                            ) is Some {
                                (
                                    pv,
                                    search_dist(plan, static_block, ti0 as int, s0 as int, t as int, y * N + x)->0 as usize,
                                )
                            } else {
                                at(dist0[t as int]@, y, x)
                            },
                        match best {
                            Some(b) => reach(plan, static_block, ti0 as int, s0 as int, t1 as int, c1 as int, k as int)
                                == Some((b.0 as int, b.1 as int, b.2 as int)),
                            None => reach(plan, static_block, ti0 as int, s0 as int, t1 as int, c1 as int, k as int)
                                is None,
                        },
                {
                    proof {
                        lemma_reach_bound(plan, static_block, ti0 as int, s0 as int, t1 as int, c1 as int, k as int);
                    }
                    let (dy, dx) = dydx(k);
                    let py: i64 = y1 as i64 - dy;
                    let px: i64 = x1 as i64 - dx;
                    if 0 <= py && py < N as i64 && 0 <= px && px < N as i64 {
                        let y0 = py as usize;
                        let x0 = px as usize;
                        let c0 = y0 * N + x0;
                        proof {
                            lemma_unflat(y0 as int, x0 as int);
                            assert(pred_of(c1 as int, k as int) == Some(c0 as int));
                        }
                        let free_next = hand.plan[t1][y1][x1].is_none();
                        let here = hand.plan[t][y1][x1];
                        let swap = here.is_some() && opt_eq(here, hand.plan[t1][y0][x0]);
                        let blocked = (static_block >> c1) & 1 != 0;
                        assert(free_next == (at(plan[t1 as int]@, cy(c1 as int), cx(c1 as int)) is None));
                        assert(here == at(plan[t as int]@, cy(c1 as int), cx(c1 as int)));
                        assert(hand.plan@[t1 as int]@[y0 as int]@[x0 as int] == at(
                            plan[t1 as int]@,
                            cy(c0 as int),
                            cx(c0 as int),
                        ));
                        if free_next && !swap && !blocked {
                            assert(legal_step(plan, static_block, t as int, c0 as int, c1 as int));
                            let (dp, dd) = dist[t][y0][x0];
                            assert((dp, dd) == at(dist@[t as int]@, y0 as int, x0 as int));
                            if dp == pv {
                                proof {
                                    if t > ti0 {
                                        lemma_reach_bound(plan, static_block, ti0 as int, s0 as int, t as int, c0 as int, 5);
                                    }
                                    assert(search_dist(plan, static_block, ti0 as int, s0 as int, t as int, c0 as int)
                                        == Some(dd as int));
                                    assert((t - ti0) * (T + 1) <= T * (T + 1)) by (nonlinear_arith)
                                        requires
                                            t - ti0 <= T,
                                    ;
                                }
                                let step: usize = if k == 4 {
                                    0
                                } else {
                                    cost
                                };
                                let tot: usize = dd + step;
                                let cand = (tot, dd, c0);
                                best = match best {
                                    Some(b) => if tot < b.0 || (tot == b.0 && (dd < b.1 || (dd == b.1 && c0 > b.2))) {
                                        Some(cand)
                                    } else {
                                        Some(b)
                                    },
                                    None => Some(cand),
                                };
                            } else {
                                proof {
                                    if search_dist(plan, static_block, ti0 as int, s0 as int, t as int, c0 as int) is Some {
                                        assert(at(dist@[t as int]@, y0 as int, x0 as int).0 == pv);
                                    }
                                }
                            }
                        } else {
                            assert(!legal_step(plan, static_block, t as int, c0 as int, c1 as int));
                        }
                    } else {
                        assert(pred_of(c1 as int, k as int) is None);
                    }
                }
                proof {
                    lemma_reach_bound(plan, static_block, ti0 as int, s0 as int, t1 as int, c1 as int, 5);
                }
                if let Some((tot, _d, c0)) = best {
                    let (y0, x0) = cell_of(c0);
                    let ghost od = dist@;
                    let ghost op = pre@;
                    dist[t1][y1].set(x1, (pv, tot));
                    pre[t1][y1].set(x1, (y0, x0));
                    proof {
                        lemma_cube_set(od, dist@, t1 as int, y1 as int, x1 as int, (pv, tot));
                        lemma_cube_set(op, pre@, t1 as int, y1 as int, x1 as int, (y0, x0));
                        lemma_flat(c1 as int);
                    }
                }
                proof {
                    lemma_flat(c1 as int);
                }
            }
            t = t1;
        }
        let mut ev: Option<usize> = None;
        let mut lst: Option<(usize, usize)> = None;
        for c in 0..N * N
            invariant
                plan == hand.plan@,
                ti0 <= ti1 < T,
                s0 < N * N,
                cube_ok(dist@),
                forall|u: int, y: int, x: int|
                    ti0 <= u <= ti1 && 0 <= y < N && 0 <= x < N ==> (#[trigger] at(dist0[u]@, y, x)).0 > pv,
                dist_settled(dist@, dist0, plan, static_block, ti0 as int, s0 as int, ti1 as int, pv),
                match best_target(plan, static_block, ti0 as int, s0 as int, ti1 as int, tgt_area, c as int) {
                    Some(b) => ev == Some(b.0 as usize) && lst == Some((cy(b.1) as usize, cx(b.1) as usize))
                        && 0 <= b.0 <= usize::MAX,
                    None => ev is None && lst is None,
                },
        {
            let (y, x) = cell_of(c);
            if (tgt_area >> c) & 1 != 0 {
                let (dp, d) = dist[ti1][y][x];
                assert((dp, d) == at(dist@[ti1 as int]@, y as int, x as int));
                proof {
                    if ti1 > ti0 {
                        lemma_reach_bound(plan, static_block, ti0 as int, s0 as int, ti1 as int, c as int, 5);
                    }
                    assert((ti1 - ti0) * (T + 1) <= T * (T + 1)) by (nonlinear_arith)
                        requires
                            ti1 - ti0 <= T,
                    ;
                    assert(at(dist0[ti1 as int]@, y as int, x as int).0 > pv);
                    assert(y * N + x == c);
                }
                if dp == pv {
                    assert(search_dist(plan, static_block, ti0 as int, s0 as int, ti1 as int, c as int) == Some(
                        d as int,
                    ));
                    let better = match ev {
                        Some(e) => d < e,
                        None => true,
                    };
                    if better {
                        ev = Some(d);
                        lst = Some((y, x));
                    }
                } else {
                    assert(search_dist(plan, static_block, ti0 as int, s0 as int, ti1 as int, c as int) is None);
                }
            }
        }
        *p = pv - 1;
        lst
    }
}

/// Every crane planned anywhere has an id below `N`.
pub open spec fn plan_ids_ok(plan: Seq<Vec<Vec<Option<usize>>>>) -> bool {
    forall|t: int, y: int, x: int|
        0 <= t < T && 0 <= y < N && 0 <= x < N && (#[trigger] at(plan[t]@, y, x)) is Some ==> at(
            plan[t]@,
            y,
            x,
        )->0 < N
}

/// Every stamp of the distance entries is above `p`.
pub open spec fn stamps_above(dist: Seq<Vec<Vec<(usize, usize)>>>, p: usize) -> bool {
    forall|t: int, y: int, x: int|
        0 <= t < T && 0 <= y < N && 0 <= x < N ==> (#[trigger] at(dist[t]@, y, x)).0 > p
}

/// `acts` holds one action list per crane, with valid action codes.
pub open spec fn acts_ok(acts: Seq<Vec<usize>>) -> bool {
    &&& acts.len() == N
    &&& forall|h: int, i: int| 0 <= h < N && 0 <= i < acts[h]@.len() ==> #[trigger] acts[h]@[i] <= BOMB
}

/// The cranes listed by `hands_upto` have ids below `N` and stand in the yard.
proof fn lemma_hands_upto_range(g: Seq<Vec<Option<usize>>>, k: int)
    requires
        grid_ok(g),
        0 <= k <= N * N,
        forall|y: int, x: int| 0 <= y < N && 0 <= x < N && (#[trigger] at(g, y, x)) is Some ==> at(g, y, x)->0 < N,
    ensures
        forall|i: int|
            0 <= i < hands_upto(g, k).len() ==> (#[trigger] hands_upto(g, k)[i]).0 < N && hands_upto(
                g,
                k,
            )[i].1.0 < N && hands_upto(g, k)[i].1.1 < N,
    decreases k,
{
    if k > 0 {
        lemma_hands_upto_range(g, k - 1);
        lemma_flat(k - 1);
        let y = (k - 1) / (N as int);
        let x = (k - 1) % (N as int);
        if at(g, y, x) is Some {
            assert(at(g, y, x)->0 < N);
            let hs = hands_upto(g, k);
            assert(hs == hands_upto(g, k - 1).push((at(g, y, x)->0, (y as usize, x as usize))));
            assert forall|i: int| 0 <= i < hs.len() implies (#[trigger] hs[i]).0 < N && hs[i].1.0 < N
                && hs[i].1.1 < N by {
                if i < hs.len() - 1 {
                    assert(hs[i] == hands_upto(g, k - 1)[i]);
                }
            }
        }
    }
}

/// The cells of a trace lie in the yard.
proof fn lemma_trace_cell_range(pre: Seq<Vec<Vec<(usize, usize)>>>, lt: int, ly: usize, lx: usize, s: nat)
    requires
        pre_ok(pre),
        ly < N,
        lx < N,
        0 <= lt < T,
        s <= lt + 1,
    ensures
        trace_cell(pre, lt, ly, lx, s).0 < N,
        trace_cell(pre, lt, ly, lx, s).1 < N,
    decreases s,
{
    if s > 0 {
        lemma_trace_cell_range(pre, lt, ly, lx, (s - 1) as nat);
    }
}

/// The actions of a trace are moves or stays.
proof fn lemma_trace_acts_codes(pre: Seq<Vec<Vec<(usize, usize)>>>, lt: int, ly: usize, lx: usize, s: nat)
    ensures
        forall|i: int| 0 <= i < trace_acts(pre, lt, ly, lx, s).len() ==> #[trigger] trace_acts(pre, lt, ly, lx, s)[i]
            < 5,
    decreases s,
{
    if s > 0 {
        lemma_trace_acts_codes(pre, lt, ly, lx, (s - 1) as nat);
        let c0 = trace_cell(pre, lt, ly, lx, (s - 1) as nat);
        let c1 = trace_cell(pre, lt, ly, lx, s);
        let prev = trace_acts(pre, lt, ly, lx, (s - 1) as nat);
        if let Some(a) = code_of(c0.0 - c1.0, c0.1 - c1.1) {
            assert(a < 5);
            let cur = trace_acts(pre, lt, ly, lx, s);
            assert(cur == prev.push(a));
            assert forall|i: int| 0 <= i < cur.len() implies #[trigger] cur[i] < 5 by {
                if i < prev.len() {
                    assert(cur[i] == prev[i]);
                }
            }
        }
    }
}

/// The cell chosen by `best_target` lies in the yard.
proof fn lemma_best_target_range(
    plan: Seq<Vec<Vec<Option<usize>>>>,
    blocked: usize,
    t0: int,
    s0: int,
    t1: int,
    tgt: usize,
    k: int,
)
    requires
        0 <= k <= N * N,
    ensures
        best_target(plan, blocked, t0, s0, t1, tgt, k) matches Some(b) ==> 0 <= b.1 < N * N,
    decreases k,
{
    if k > 0 {
        lemma_best_target_range(plan, blocked, t0, s0, t1, tgt, k - 1);
    }
}

impl Hand {
    /// Remove every crane from the plan at time `t`.
    pub fn clear_layer(&mut self, t: usize)
        requires
            plan_ok(old(self).plan@),
            t < T,
        ensures
            plan_ok(final(self).plan@),
            forall|u: int, y: int, x: int|
                0 <= u < T && 0 <= y < N && 0 <= x < N ==> #[trigger] at(final(self).plan@[u]@, y, x)
                    == if u == t {
                    None
                } else {
                    at(old(self).plan@[u]@, y, x)
                },
    {
        let ghost p0 = self.plan@;
        for y in 0..N
            invariant
                plan_ok(self.plan@),
                plan_ok(p0),
                t < T,
                forall|u: int, z: int, x: int|
                    0 <= u < T && 0 <= z < N && 0 <= x < N ==> #[trigger] at(self.plan@[u]@, z, x) == if u
                        == t && z < y {
                        None
                    } else {
                        at(p0[u]@, z, x)
                    },
        {
            for x in 0..N
                invariant
                    plan_ok(self.plan@),
                    plan_ok(p0),
                    t < T,
                    y < N,
                    forall|u: int, z: int, w: int|
                        0 <= u < T && 0 <= z < N && 0 <= w < N ==> #[trigger] at(self.plan@[u]@, z, w) == if u
                            == t && (z < y || (z == y && w < x)) {
                            None
                        } else {
                            at(p0[u]@, z, w)
                        },
            {
                let ghost old = self.plan@;
                self.plan[t][y].set(x, None);
                proof {
                    lemma_cube_set(old, self.plan@, t as int, y as int, x as int, None::<usize>);
                }
            }
        }
    }

    /// Plan cell `(y, x)` at time `t` to hold `v`.
    pub fn put(&mut self, t: usize, y: usize, x: usize, v: Option<usize>)
        requires
            plan_ok(old(self).plan@),
            t < T,
            y < N,
            x < N,
        ensures
            plan_ok(final(self).plan@),
            forall|u: int, z: int, w: int|
                0 <= u < T && 0 <= z < N && 0 <= w < N ==> #[trigger] at(final(self).plan@[u]@, z, w)
                    == if u == t && z == y && w == x {
                    v
                } else {
                    at(old(self).plan@[u]@, z, w)
                },
    {
        let ghost old = self.plan@;
        self.plan[t][y].set(x, v);
        proof {
            lemma_cube_set(old, self.plan@, t as int, y as int, x as int, v);
        }
    }
}

impl State {
    /// Move the ground container of `(sy, sx)` to `(ly, lx)`; `false` (and no change) when
    /// `(sy, sx)` holds none.
    pub fn relocate(&mut self, sy: usize, sx: usize, ly: usize, lx: usize) -> (moved: bool)
        requires
            old(self).well_formed(),
            sy < N,
            sx < N,
            ly < N,
            lx < N,
        ensures
            final(self).well_formed(),
            final(self).level(1) == old(self).level(1),
            final(self).backyard_of() == old(self).backyard_of(),
            final(self).seeks_of() == old(self).seeks_of(),
            final(self).absorbed() == old(self).absorbed(),
            moved == (at(old(self).level(0), sy as int, sx as int) is Some),
            forall|y: int, x: int|
                0 <= y < N && 0 <= x < N ==> #[trigger] at(final(self).level(0), y, x) == if !moved {
                    at(old(self).level(0), y, x)
                } else if y == ly && x == lx {
                    at(old(self).level(0), sy as int, sx as int)
                } else if y == sy && x == sx {
                    None
                } else {
                    at(old(self).level(0), y, x)
                },
    {
        let ghost s0 = *self;
        assert(self.container@[0]@ == s0.level(0));
        match self.container[0][sy][sx] {
            Some(ci) => {
                assert(at(s0.level(0), sy as int, sx as int) == Some(ci));
                let ghost c0 = self.container@;
                self.container[0][sy].set(sx, None);
                let ghost c1 = self.container@;
                self.container[0][ly].set(lx, Some(ci));
                proof {
                    assert(self.container@[1] == c0[1]);
                    assert forall|y: int, x: int| 0 <= y < N && 0 <= x < N implies #[trigger] at(self.level(0), y, x)
                        == if y == ly && x == lx {
                        Some(ci)
                    } else if y == sy && x == sx {
                        None
                    } else {
                        at(s0.level(0), y, x)
                    } by {
                        if y != ly {
                            assert(self.container@[0]@[y] == c1[0]@[y]);
                        }
                        if y != sy {
                            assert(c1[0]@[y] == c0[0]@[y]);
                        }
                    }
                    assert(grid_ok(self.level(0))) by {
                        assert forall|y: int| 0 <= y < N implies (#[trigger] self.level(0)[y])@.len() == N by {
                            if y != ly {
                                assert(self.container@[0]@[y] == c1[0]@[y]);
                            }
                            if y != sy {
                                assert(c1[0]@[y] == c0[0]@[y]);
                            }
                        }
                    }
                    assert forall|z: int, y: int, x: int|
                        0 <= z < 2 && 0 <= y < N && 0 <= x < N && (#[trigger] at(self.level(z), y, x)) is Some
                            implies at(self.level(z), y, x)->0 < N * N by {
                        if z == 0 {
                            if !(y == ly && x == lx) && !(y == sy && x == sx) {
                                assert(at(self.level(0), y, x) == at(s0.level(0), y, x));
                            }
                        } else {
                            assert(at(self.level(1), y, x) == at(s0.level(1), y, x));
                        }
                    }
                }
                true
            },
            None => false,
        }
    }
}

/// The sort key of a planned drop: exit distance of the target column, then travel distance,
/// then whether the large crane carries it.
pub open spec fn drop_key(e: (usize, (usize, usize), (usize, usize))) -> (int, int, bool) {
    let (hi, (cy, cx), (ty, tx)) = e;
    (
        N - 1 - tx,
        (if ty >= cy {
            ty - cy
        } else {
            cy - ty
        }) + (if tx >= cx {
            tx - cx
        } else {
            cx - tx
        }),
        hi == 0,
    )
}

/// Key `a` comes strictly before key `b`.
pub open spec fn key_lt(a: (int, int, bool), b: (int, int, bool)) -> bool {
    a.0 < b.0 || (a.0 == b.0 && (a.1 < b.1 || (a.1 == b.1 && !a.2 && b.2)))
}

/// The key of a planned drop, computed.
fn drop_key_exec(e: (usize, (usize, usize), (usize, usize))) -> (r: (usize, usize, bool))
    requires
        e.2.1 < N,
        e.1.0 < N,
        e.1.1 < N,
        e.2.0 < N,
    ensures
        r.0 as int == drop_key(e).0,
        r.1 as int == drop_key(e).1,
        r.2 == drop_key(e).2,
{
    let (hi, (cy, cx), (ty, tx)) = e;
    let dy = if ty >= cy {
        ty - cy
    } else {
        cy - ty
    };
    let dx = if tx >= cx {
        tx - cx
    } else {
        cx - tx
    };
    (N - 1 - tx, dy + dx, hi == 0)
}

/// Key `a` comes strictly before key `b`, computed.
fn key_lt_exec(a: (usize, usize, bool), b: (usize, usize, bool)) -> (r: bool)
    ensures
        r == key_lt((a.0 as int, a.1 as int, a.2), (b.0 as int, b.1 as int, b.2)),
{
    a.0 < b.0 || (a.0 == b.0 && (a.1 < b.1 || (a.1 == b.1 && !a.2 && b.2)))
}

/// A planned drop names a crane and two cells of the yard.
pub open spec fn drop_ok(e: (usize, (usize, usize), (usize, usize))) -> bool {
    e.0 < N && e.1.0 < N && e.1.1 < N && e.2.0 < N && e.2.1 < N
}

/// Sort the planned drops by `drop_key`, keeping the order of equal keys.
fn sort_drop_plan(v: Vec<(usize, (usize, usize), (usize, usize))>) -> (r: Vec<(usize, (usize, usize), (usize, usize))>)
    requires
        forall|i: int| 0 <= i < v@.len() ==> drop_ok(#[trigger] v@[i]),
    ensures
        r@.to_multiset() == v@.to_multiset(),
        forall|i: int| 0 <= i < r@.len() ==> drop_ok(#[trigger] r@[i]),
        forall|i: int, j: int| 0 <= i < j < r@.len() ==> !key_lt(drop_key(#[trigger] r@[j]), drop_key(#[trigger] r@[i])),
{
    broadcast use vstd::seq_lib::group_to_multiset_ensures;
    let mut r: Vec<(usize, (usize, usize), (usize, usize))> = Vec::new();
    for k in 0..v.len()
        invariant
            forall|i: int| 0 <= i < v@.len() ==> drop_ok(#[trigger] v@[i]),
            r@.to_multiset() == v@.subrange(0, k as int).to_multiset(),
            forall|i: int| 0 <= i < r@.len() ==> drop_ok(#[trigger] r@[i]),
            forall|i: int, j: int| 0 <= i < j < r@.len() ==> !key_lt(drop_key(#[trigger] r@[j]), drop_key(#[trigger] r@[i])),
    {
        let e = v[k];
        let ke = drop_key_exec(e);
        let mut pos: usize = r.len();
        while pos > 0 && key_lt_exec(ke, drop_key_exec(r[pos - 1]))
            invariant
                pos <= r@.len(),
                forall|i: int| 0 <= i < r@.len() ==> drop_ok(#[trigger] r@[i]),
                drop_ok(e),
                ke.0 as int == drop_key(e).0,
                ke.1 as int == drop_key(e).1,
                ke.2 == drop_key(e).2,
                forall|i: int| pos <= i < r@.len() ==> key_lt(drop_key(e), drop_key(#[trigger] r@[i])),
            decreases pos,
        {
            pos -= 1;
        }
        proof {
            assert(v@.subrange(0, k + 1) == v@.subrange(0, k as int).push(e));
            vstd::seq_lib::to_multiset_insert(r@, pos as int, e);
            vstd::seq_lib::to_multiset_build(v@.subrange(0, k as int), e);
        }
        let ghost old = r@;
        r.insert(pos, e);
        assert forall|i: int, j: int| 0 <= i < j < r@.len() implies !key_lt(
            drop_key(#[trigger] r@[j]),
            drop_key(#[trigger] r@[i]),
        ) by {
            if i < pos && j == pos {
                if pos > 0 {
                    assert(!key_lt(drop_key(e), drop_key(old[pos - 1])));
                    assert(!key_lt(drop_key(old[pos - 1]), drop_key(old[i])) || i == pos - 1);
                }
            } else if i == pos && j > pos {
                assert(key_lt(drop_key(e), drop_key(old[j - 1])));
            } else if i < pos && j > pos {
                assert(!key_lt(drop_key(old[j - 1]), drop_key(old[i])));
            } else if i > pos {
                assert(!key_lt(drop_key(old[j - 1]), drop_key(old[i - 1])));
            }
        }
    }
    assert(v@.subrange(0, v@.len() as int) == v@);
    r
}

/// An optional cell lies in the yard.
pub open spec fn cell_ok(o: Option<(usize, usize)>) -> bool {
    match o {
        Some(c) => c.0 < N && c.1 < N,
        None => true,
    }
}

/// No container is lifted.
pub open spec fn lifted_empty(s: State) -> bool {
    forall|y: int, x: int| 0 <= y < N && 0 <= x < N ==> #[trigger] at(s.level(1), y, x) is None
}

/// Every row still expecting arrivals has a container on its left cell.
pub open spec fn arrivals_ready(s: State) -> bool {
    forall|y: int| 0 <= y < N && #[trigger] s.backyard_of()[y] < N ==> at(s.level(0), y, 0) is Some
}

/// The working data of the simulation is consistent.
pub open spec fn sim_ok(
    a: Seq<Vec<usize>>,
    plan: Seq<Vec<Vec<Option<usize>>>>,
    dist: Seq<Vec<Vec<(usize, usize)>>>,
    pre: Seq<Vec<Vec<(usize, usize)>>>,
    p: usize,
    acts: Seq<Vec<usize>>,
    s: State,
) -> bool {
    &&& arrivals_ok(a)
    &&& plan_ok(plan)
    &&& plan_ids_ok(plan)
    &&& cube_ok(dist)
    &&& cube_ok(pre)
    &&& pre_ok(pre)
    &&& stamps_above(dist, p)
    &&& acts_ok(acts)
    &&& s.well_formed()
    &&& lifted_empty(s)
}

/// A row that is the best to wait for has a pending arrival.
proof fn lemma_best_row_some(a: Seq<Vec<usize>>, s: &State, k: int)
    ensures
        best_row(a, s, k) matches Some(b) ==> 0 <= b.1 < k && row_wait(a, s, b.1) is Some,
    decreases k,
{
    if k > 0 {
        lemma_best_row_some(a, s, k - 1);
    }
}

/// A scan that finds an expected container starts inside the row.
proof fn lemma_first_seeked_inside(a: Seq<Vec<usize>>, seeks: Seq<usize>, y: int, from: int)
    ensures
        first_seeked_from(a, seeks, y, from) is Some ==> 0 <= from < N,
    decreases N - from,
{
    if 0 <= from < N {
        lemma_first_seeked_inside(a, seeks, y, from + 1);
    }
}

/// When every row expecting arrivals shows a container, `gen_ideal` may be called.
proof fn lemma_ideal_callable(a: Seq<Vec<usize>>, s: &State)
    requires
        arrivals_ready(*s),
    ensures
        best_row(a, s, N as int) matches Some(b) ==> at(s.level(0), b.1, 0) is Some,
{
    lemma_best_row_some(a, s, N as int);
    if let Some(b) = best_row(a, s, N as int) {
        lemma_first_seeked_inside(a, s.seeks_of(), b.1, s.backyard_of()[b.1] as int);
        assert(s.backyard_of()[b.1] < N);
    }
}

/// The waiting cells lie in the yard.
proof fn lemma_first_free_keep_range(ground: Seq<Vec<Option<usize>>>, k: int)
    ensures
        first_free_keep(ground, k) matches Some(c) ==> c.0 < N && c.1 < N,
    decreases KEEP_ORDER_LEN - k,
{
    if 0 <= k < KEEP_ORDER_LEN {
        lemma_first_free_keep_range(ground, k + 1);
    }
}

/// Target cells lie in the yard.
proof fn lemma_ideal_range(a: Seq<Vec<usize>>, s: &State, ci: int)
    requires
        0 <= ci < N * N,
    ensures
        spec_ideal(a, s, ci) matches Some(c) ==> c.0 < N && c.1 < N,
{
    lemma_flat(ci);
    lemma_first_free_keep_range(s.level(0), 0);
}

/// Taking in arrivals leaves every row that still expects arrivals with a container on its left
/// cell.
proof fn lemma_ready_after_backyard(a: Seq<Vec<usize>>, s0: State, s1: State)
    requires
        lifted_empty(s0),
        s0.backyard_of().len() == N,
        s1.level(1) == s0.level(1),
        forall|y: int, x: int|
            0 <= y < N && 0 <= x < N ==> #[trigger] at(s1.level(0), y, x) == if x == 0 && s0.takes_in(y) {
                Some(at(a, y, s0.backyard_of()[y] as int))
            } else {
                at(s0.level(0), y, x)
            },
        forall|y: int|
            0 <= y < N ==> #[trigger] s1.backyard_of()[y] == s0.backyard_of()[y] + if s0.takes_in(y) {
                1int
            } else {
                0int
            },
    ensures
        arrivals_ready(s1),
        lifted_empty(s1),
{
    assert forall|y: int| 0 <= y < N && #[trigger] s1.backyard_of()[y] < N implies at(s1.level(0), y, 0) is Some by {
        assert(at(s0.level(1), y, 0) is None);
        assert(at(s1.level(0), y, 0) == if s0.takes_in(y) {
            Some(at(a, y, s0.backyard_of()[y] as int))
        } else {
            at(s0.level(0), y, 0)
        });
    }
    assert forall|y: int, x: int| 0 <= y < N && 0 <= x < N implies #[trigger] at(s1.level(1), y, x) is None by {
        assert(at(s0.level(1), y, x) is None);
    }
}

/// A `T x N x N` cube filled with `v`.
fn cube_filled(v: (usize, usize)) -> (c: Vec<Vec<Vec<(usize, usize)>>>)
    ensures
        cube_ok(c@),
        forall|t: int, y: int, x: int| 0 <= t < T && 0 <= y < N && 0 <= x < N ==> #[trigger] at(c@[t]@, y, x) == v,
{
    let mut c: Vec<Vec<Vec<(usize, usize)>>> = Vec::new();
    for t in 0..T
        invariant
            c@.len() == t,
            forall|u: int| 0 <= u < t ==> grid_ok(#[trigger] c@[u]@),
            forall|u: int, y: int, x: int| 0 <= u < t && 0 <= y < N && 0 <= x < N ==> #[trigger] at(c@[u]@, y, x) == v,
    {
        let mut g: Vec<Vec<(usize, usize)>> = Vec::new();
        for y in 0..N
            invariant
                g@.len() == y,
                forall|j: int| 0 <= j < y ==> (#[trigger] g@[j])@.len() == N,
                forall|j: int, x: int| 0 <= j < y && 0 <= x < N ==> #[trigger] at(g@, j, x) == v,
        {
            let mut row: Vec<(usize, usize)> = Vec::new();
            for x in 0..N
                invariant
                    row@.len() == x,
                    forall|i: int| 0 <= i < x ==> row@[i] == v,
            {
                row.push(v);
            }
            let ghost prev = g@;
            g.push(row);
            assert forall|j: int, x: int| 0 <= j < y + 1 && 0 <= x < N implies #[trigger] at(g@, j, x) == v by {
                if j < y {
                    assert(g@[j] == prev[j]);
                    assert(at(prev, j, x) == v);
                } else {
                    assert(g@[j] == row);
                    assert(row@[x] == v);
                }
            }
        }
        let ghost prevc = c@;
        c.push(g);
        assert forall|u: int, y: int, x: int| 0 <= u < t + 1 && 0 <= y < N && 0 <= x < N implies #[trigger] at(
            c@[u]@,
            y,
            x,
        ) == v by {
            if u < t {
                assert(c@[u] == prevc[u]);
            }
        }
    }
    c
}

impl Solver {
    /// Run `hand_motion` when its indices fit (`None` otherwise), treating an end time before
    /// the start time as a search that reaches nothing.
    fn motion(
        hi: usize,
        start: (usize, usize),
        ti0: usize,
        ti1: usize,
        tgt_area: usize,
        p: &mut usize,
        static_block: usize,
        hand: &Hand,
        dist: &mut Vec<Vec<Vec<(usize, usize)>>>,
        pre: &mut Vec<Vec<Vec<(usize, usize)>>>,
    ) -> (r: Option<Option<(usize, usize)>>)
        requires
            plan_ok(hand.plan@),
            start.0 < N,
            start.1 < N,
            cube_ok(old(dist)@),
            cube_ok(old(pre)@),
            pre_ok(old(pre)@),
            stamps_above(old(dist)@, *old(p)),
        ensures
            cube_ok(final(dist)@),
            cube_ok(final(pre)@),
            pre_ok(final(pre)@),
            stamps_above(final(dist)@, *final(p)),
            r matches Some(Some(c)) ==> c.0 < N && c.1 < N && ti0 <= ti1 < T,
            r is None <==> (*old(p) < 1 || ti0 >= T || ti1 >= T),
            r is None ==> *final(p) == *old(p),
            r is Some ==> *final(p) == *old(p) - 1,
            r is Some && ti1 < ti0 ==> r == Some(None::<(usize, usize)>),
            r is Some && ti0 <= ti1 ==> r == Some(
                match best_target(
                    hand.plan@,
                    static_block,
                    ti0 as int,
                    start.0 * N + start.1,
                    ti1 as int,
                    tgt_area,
                    (N * N) as int,
                ) {
                    Some(b) => Some((cy(b.1) as usize, cx(b.1) as usize)),
                    None => None,
                },
            ),
    {
        if *p < 1 || ti0 >= T || ti1 >= T {
            return None;
        }
        if ti1 < ti0 {
            let pv = *p;
            let ghost d0 = dist@;
            dist[ti0][start.0].set(start.1, (pv, 0));
            proof {
                lemma_cube_set(d0, dist@, ti0 as int, start.0 as int, start.1 as int, (pv, 0usize));
            }
            *p = pv - 1;
            return Some(None);
        }
        let ghost pv = *p;
        let ghost d0 = dist@;
        let ghost p0 = pre@;
        let r = Self::hand_motion(hi, start, ti0, ti1, tgt_area, p, static_block, hand, dist, pre);
        proof {
            let s0 = start.0 * N + start.1;
            lemma_unflat(start.0 as int, start.1 as int);
            assert forall|t: int, y: int, x: int| 0 <= t < T && 0 <= y < N && 0 <= x < N implies (#[trigger] at(
                dist@[t]@,
                y,
                x,
            )).0 > *p by {
                assert(at(d0[t]@, y, x).0 > pv);
            }
            assert forall|t: int, y: int, x: int| 0 <= t < T && 0 <= y < N && 0 <= x < N implies (#[trigger] at(
                pre@[t]@,
                y,
                x,
            )).0 < N && at(pre@[t]@, y, x).1 < N by {
                lemma_unflat(y, x);
                if ti0 < t <= ti1 && reach(hand.plan@, static_block, ti0 as int, s0 as int, t, y * N + x, 5) is Some {
                    lemma_reach_bound(hand.plan@, static_block, ti0 as int, s0 as int, t, y * N + x, 5);
                    lemma_flat(reach_prev(hand.plan@, static_block, ti0 as int, s0 as int, t, y * N + x));
                }
            }
            lemma_best_target_range(hand.plan@, static_block, ti0 as int, s0 as int, ti1 as int, tgt_area, (N * N) as int);
            if let Some(b) = best_target(hand.plan@, static_block, ti0 as int, s0 as int, ti1 as int, tgt_area, (N * N) as int) {
                lemma_flat(b.1);
            }
        }
        Some(r)
    }

    /// Write the plan found for crane `hi` from time `ti0` to cell `(ly, lx)` at time `ti1`.
    fn apply_trace(
        hi: usize,
        ti0: usize,
        ti1: usize,
        ly: usize,
        lx: usize,
        pre: &Vec<Vec<Vec<(usize, usize)>>>,
        hand: &mut Hand,
        ans_acts: &mut Vec<Vec<usize>>,
    )
        requires
            pre_ok(pre@),
            ti0 <= ti1 < T,
            ly < N,
            lx < N,
            hi < N,
            plan_ok(old(hand).plan@),
            plan_ids_ok(old(hand).plan@),
            acts_ok(old(ans_acts)@),
        ensures
            plan_ok(final(hand).plan@),
            plan_ids_ok(final(hand).plan@),
            acts_ok(final(ans_acts)@),
            forall|t: int, y: int, x: int|
                0 <= t < T && 0 <= y < N && 0 <= x < N ==> #[trigger] at(final(hand).plan@[t]@, y, x) == if exists|s: int|
                    0 <= s <= ti1 - ti0 && t == ti1 - s && #[trigger] trace_cell(pre@, ti1 as int, ly, lx, s as nat) == (
                        y as usize,
                        x as usize,
                    ) {
                    Some(hi)
                } else {
                    at(old(hand).plan@[t]@, y, x)
                },
            final(ans_acts)@.len() == old(ans_acts)@.len(),
            final(ans_acts)@[hi as int]@ == old(ans_acts)@[hi as int]@ + trace_acts(
                pre@,
                ti1 as int,
                ly,
                lx,
                (ti1 - ti0) as nat,
            ).reverse(),
            forall|h: int| 0 <= h < N && h != hi ==> #[trigger] final(ans_acts)@[h] == old(ans_acts)@[h],
    {
        let upd = Self::back_trace(hi, ti0, ti1, ly, lx, pre);
        proof {
            assert forall|k: int| 0 <= k < upd.hand@.len() implies (#[trigger] upd.hand@[k]).0 < T && upd.hand@[k].1 < N
                && upd.hand@[k].2 < N by {
                lemma_trace_cell_range(pre@, ti1 as int, ly, lx, k as nat);
            }
            lemma_trace_acts_codes(pre@, ti1 as int, ly, lx, (ti1 - ti0) as nat);
            let acts = trace_acts(pre@, ti1 as int, ly, lx, (ti1 - ti0) as nat);
            assert forall|i: int| 0 <= i < upd.ans_acts@.len() implies #[trigger] upd.ans_acts@[i] < 5 by {
                assert(upd.ans_acts@[i] == acts[acts.len() - 1 - i]);
            }
        }
        let ghost a0 = ans_acts@;
        let ghost new_acts = upd.ans_acts@;
        let ghost upd_cells = upd.hand@;
        Self::update_back_trace(upd, hand, ans_acts);
        proof {
            assert forall|h: int, i: int| 0 <= h < N && 0 <= i < ans_acts@[h]@.len() implies #[trigger] ans_acts@[h]@[i]
                <= BOMB by {
                if h == hi {
                    if i >= a0[h]@.len() {
                        assert(ans_acts@[h]@[i] == new_acts[i - a0[h]@.len()]);
                    } else {
                        assert(ans_acts@[h]@[i] == a0[h]@[i]);
                    }
                }
            }
            assert forall|t: int, y: int, x: int|
                0 <= t < T && 0 <= y < N && 0 <= x < N implies #[trigger] at(hand.plan@[t]@, y, x) == if exists|s: int|
                    0 <= s <= ti1 - ti0 && t == ti1 - s && #[trigger] trace_cell(pre@, ti1 as int, ly, lx, s as nat) == (
                        y as usize,
                        x as usize,
                    ) {
                    Some(hi)
                } else {
                    at(old(hand).plan@[t]@, y, x)
                } by {
                if exists|k: int|
                    0 <= k < upd_cells.len() && #[trigger] upd_cells[k] == (t as usize, y as usize, x as usize) {
                    let k = choose|k: int|
                        0 <= k < upd_cells.len() && #[trigger] upd_cells[k] == (t as usize, y as usize, x as usize);
                    assert(upd_cells[k] == ((ti1 - k) as usize, trace_cell(pre@, ti1 as int, ly, lx, k as nat).0, trace_cell(pre@, ti1 as int, ly, lx, k as nat).1));
                    assert(trace_cell(pre@, ti1 as int, ly, lx, k as nat) == (y as usize, x as usize));
                }
                if exists|s: int|
                    0 <= s <= ti1 - ti0 && t == ti1 - s && #[trigger] trace_cell(pre@, ti1 as int, ly, lx, s as nat) == (
                        y as usize,
                        x as usize,
                    ) {
                    let s = choose|s: int|
                        0 <= s <= ti1 - ti0 && t == ti1 - s && #[trigger] trace_cell(pre@, ti1 as int, ly, lx, s as nat) == (
                            y as usize,
                            x as usize,
                        );
                    assert(upd_cells[s] == (t as usize, y as usize, x as usize));
                }
            }
        }
    }

    /// Append action `code` to the list of crane `hi`.
    fn push_act(ans_acts: &mut Vec<Vec<usize>>, hi: usize, code: usize)
        requires
            acts_ok(old(ans_acts)@),
            hi < N,
            code <= BOMB,
        ensures
            acts_ok(final(ans_acts)@),
            final(ans_acts)@[hi as int]@ == old(ans_acts)@[hi as int]@.push(code),
            forall|h: int| 0 <= h < N && h != hi ==> #[trigger] final(ans_acts)@[h] == old(ans_acts)@[h],
    {
        let ghost a0 = ans_acts@;
        ans_acts[hi].push(code);
        assert forall|h: int, i: int| 0 <= h < N && 0 <= i < ans_acts@[h]@.len() implies #[trigger] ans_acts@[h]@[i]
            <= BOMB by {
            if h == hi && i < a0[h]@.len() {
                assert(ans_acts@[h]@[i] == a0[h]@[i]);
            } else if h != hi {
                assert(ans_acts@[h] == a0[h]);
            }
        }
    }
}

/// Evaluation `a` is better (smaller) than the best so far.
fn ev_better(a: (usize, i64, i64), best: Option<(usize, i64, i64)>) -> (r: bool)
    ensures
        r == match best {
            Some(b) => a.0 < b.0 || (a.0 == b.0 && (a.1 < b.1 || (a.1 == b.1 && a.2 < b.2))),
            None => true,
        },
{
    match best {
        Some(b) => a.0 < b.0 || (a.0 == b.0 && (a.1 < b.1 || (a.1 == b.1 && a.2 < b.2))),
        None => true,
    }
}

/// Setting an unset bit below 5 of a mask below 32 makes it larger and keeps it below 32.
proof fn lemma_mask_grows(x: usize, h: usize)
    requires
        x < 32,
        h < 5,
        (x >> h) & 1 == 0,
    ensures
        (x | (1usize << h)) > x,
        (x | (1usize << h)) < 32,
{
    assert((x < 32 && h < 5 && (x >> h) & 1 == 0) ==> ((x | (1usize << h)) > x && (x | (1usize << h))
        < 32)) by (bit_vector);
}

/// Setting a bit below 5 of a mask below 32 keeps it below 32.
proof fn lemma_mask_small(x: usize, h: usize)
    requires
        x < 32,
        h < 5,
    ensures
        (x | (1usize << h)) < 32,
{
    assert((x < 32 && h < 5) ==> (x | (1usize << h)) < 32) by (bit_vector);
}

impl Solver {
    /// Remove the last action of crane `hi`.
    fn pop_act(ans_acts: &mut Vec<Vec<usize>>, hi: usize)
        requires
            acts_ok(old(ans_acts)@),
            hi < N,
        ensures
            acts_ok(final(ans_acts)@),
            final(ans_acts)@[hi as int]@ == if old(ans_acts)@[hi as int]@.len() > 0 {
                old(ans_acts)@[hi as int]@.drop_last()
            } else {
                old(ans_acts)@[hi as int]@
            },
            forall|h: int| 0 <= h < N && h != hi ==> #[trigger] final(ans_acts)@[h] == old(ans_acts)@[h],
    {
        let ghost a0 = ans_acts@;
        let _ = ans_acts[hi].pop();
        assert forall|h: int, i: int| 0 <= h < N && 0 <= i < ans_acts@[h]@.len() implies #[trigger] ans_acts@[h]@[i]
            <= BOMB by {
            if h == hi {
                assert(ans_acts@[h]@[i] == a0[h]@[i]);
            } else {
                assert(ans_acts@[h] == a0[h]);
            }
        }
    }

    /// Drop the trailing common waits of the cranes listed in `his`: while every such crane has
    /// actions and the last ones are all waits, remove them and the last planned time step.
    /// Returns the new last time step, `None` when it would go below zero.
    fn trim_waits(
        his: &Vec<usize>,
        nti0: usize,
        hand: &mut Hand,
        ans_acts: &mut Vec<Vec<usize>>,
    ) -> (r: Option<usize>)
        requires
            nti0 < T,
            forall|i: int| 0 <= i < his@.len() ==> #[trigger] his@[i] < N,
            plan_ok(old(hand).plan@),
            plan_ids_ok(old(hand).plan@),
            acts_ok(old(ans_acts)@),
        ensures
            plan_ok(final(hand).plan@),
            plan_ids_ok(final(hand).plan@),
            acts_ok(final(ans_acts)@),
            r matches Some(t) ==> t <= nti0,
            act_rows(final(ans_acts)@) == trim(act_rows(old(ans_acts)@), his@, nti0 as int).0,
            r is Some <==> trim(act_rows(old(ans_acts)@), his@, nti0 as int).1 is Some,
            r is Some ==> r.unwrap() == trim(act_rows(old(ans_acts)@), his@, nti0 as int).1.unwrap(),
            forall|u: int, y: int, x: int|
                0 <= u < T && 0 <= y < N && 0 <= x < N ==> #[trigger] at(final(hand).plan@[u]@, y, x) == if u <= nti0
                    && (r is None || u > r.unwrap()) {
                    None
                } else {
                    at(old(hand).plan@[u]@, y, x)
                },
    {
        let mut nti = nti0;
        loop
            invariant
                nti <= nti0 < T,
                forall|i: int| 0 <= i < his@.len() ==> #[trigger] his@[i] < N,
                plan_ok(hand.plan@),
                plan_ids_ok(hand.plan@),
                acts_ok(ans_acts@),
                ans_acts@.len() == N,
                trim(act_rows(ans_acts@), his@, nti as int) == trim(act_rows(old(ans_acts)@), his@, nti0 as int),
                forall|u: int, y: int, x: int|
                    0 <= u < T && 0 <= y < N && 0 <= x < N ==> #[trigger] at(hand.plan@[u]@, y, x) == if nti < u <= nti0 {
                        None
                    } else {
                        at(old(hand).plan@[u]@, y, x)
                    },
            decreases nti,
        {
            let mut empty = false;
            let mut seen_acts: usize = 0;
            let ghost rows = act_rows(ans_acts@);
            for k in 0..his.len()
                invariant
                    acts_ok(ans_acts@),
                    ans_acts@.len() == N,
                    rows == act_rows(ans_acts@),
                    forall|i: int| 0 <= i < his@.len() ==> #[trigger] his@[i] < N,
                    seen_acts < 128,
                    empty <==> exists|j: int| 0 <= j < k && #[trigger] rows[his@[j] as int].len() == 0,
                    seen_acts == 0 <==> forall|j: int| 0 <= j < k ==> #[trigger] rows[his@[j] as int].len() == 0,
                    seen_acts == 16 <==> (exists|j: int| 0 <= j < k && #[trigger] rows[his@[j] as int].len() > 0) && forall|j: int|
                        0 <= j < k && #[trigger] rows[his@[j] as int].len() > 0 ==> rows[his@[j] as int].last() == STAY,
            {
                let hi = his[k];
                proof {
                    assert(rows[hi as int] == ans_acts@[hi as int]@);
                }
                {
                    if ans_acts[hi].len() == 0 {
                        empty = true;
                    } else {
                        let last = ans_acts[hi][ans_acts[hi].len() - 1];
                        assert(last <= BOMB);
                        proof {
                            lemma_seen_bits(seen_acts, last);
                            assert(rows[hi as int].last() == last);
                        }
                        seen_acts = seen_acts | (1usize << last);
                    }
                }
            }
            if empty {
                proof {
                    assert(!all_wait(rows, his@));
                }
                return Some(nti);
            }
            if seen_acts == 1usize << STAY {
                proof {
                    assert(1usize << 4usize == 16usize) by (bit_vector);
                    assert(all_wait(rows, his@));
                }
                for k in 0..his.len()
                    invariant
                        acts_ok(ans_acts@),
                        ans_acts@.len() == N,
                        forall|i: int| 0 <= i < his@.len() ==> #[trigger] his@[i] < N,
                        act_rows(ans_acts@) == pop_listed(rows, his@.subrange(0, k as int)),
                {
                    let ghost before = act_rows(ans_acts@);
                    Self::pop_act(ans_acts, his[k]);
                    proof {
                        let sub = his@.subrange(0, k + 1);
                        assert(sub.drop_last() =~= his@.subrange(0, k as int));
                        assert(act_rows(ans_acts@) =~= pop_listed(rows, sub));
                    }
                }
                proof {
                    assert(his@.subrange(0, his@.len() as int) =~= his@);
                }
                let ghost pl = hand.plan@;
                hand.clear_layer(nti);
                proof {
                    assert forall|t: int, y: int, x: int|
                        0 <= t < T && 0 <= y < N && 0 <= x < N && (#[trigger] at(hand.plan@[t]@, y, x)) is Some implies at(
                            hand.plan@[t]@,
                            y,
                            x,
                        )->0 < N by {
                        assert(at(hand.plan@[t]@, y, x) == at(pl[t]@, y, x));
                    }
                }
                if nti == 0 {
                    return None;
                }
                nti -= 1;
            } else {
                proof {
                    assert(1usize << 4usize == 16usize) by (bit_vector);
                    if all_wait(rows, his@) {
                        assert(rows[his@[0] as int].len() > 0);
                    }
                }
                return Some(nti);
            }
        }
    }
}

/// The rows of action lists, as sequences.
pub open spec fn act_rows(a: Seq<Vec<usize>>) -> Seq<Seq<usize>> {
    a.map_values(|v: Vec<usize>| v@)
}

/// The listed cranes (at least one) all have actions, each ending with a wait.
pub open spec fn all_wait(rows: Seq<Seq<usize>>, his: Seq<usize>) -> bool {
    &&& his.len() > 0
    &&& forall|k: int| 0 <= k < his.len() ==> #[trigger] rows[his[k] as int].len() > 0 && rows[his[k] as int].last() == STAY
}

/// Drop the last action of each listed crane in turn (none from an empty list).
pub open spec fn pop_listed(rows: Seq<Seq<usize>>, his: Seq<usize>) -> Seq<Seq<usize>>
    decreases his.len(),
{
    if his.len() == 0 {
        rows
    } else {
        let a = pop_listed(rows, his.drop_last());
        let h = his.last() as int;
        a.update(h, if a[h].len() > 0 { a[h].drop_last() } else { a[h] })
    }
}

/// Trimming from time step `nti`: while the listed cranes all end with waits, drop those and
/// go one step back. Gives the rows left and the last step kept (`None` below step 0).
pub open spec fn trim(rows: Seq<Seq<usize>>, his: Seq<usize>, nti: int) -> (Seq<Seq<usize>>, Option<int>)
    decreases nti,
{
    if !all_wait(rows, his) {
        (rows, Some(nti))
    } else if nti <= 0 {
        (pop_listed(rows, his), None)
    } else {
        trim(pop_listed(rows, his), his, nti - 1)
    }
}

/// Setting the bit of an action code in the mask of seen codes: the mask stays below 128, is
/// not 0, and is exactly the wait bit when it was empty or the wait bit and the code is a wait.
proof fn lemma_seen_bits(s: usize, l: usize)
    requires
        s < 128,
        l <= 6,
    ensures
        (s | (1usize << l)) < 128,
        (s | (1usize << l)) != 0,
        (s | (1usize << l)) == 16 <==> ((s == 0 || s == 16) && l == 4),
{
    assert(s < 128 && l <= 6 ==> (s | (1usize << l)) < 128 && (s | (1usize << l)) != 0 && ((s | (1usize << l)) == 16
        <==> ((s == 0 || s == 16) && l == 4))) by (bit_vector);
}

impl Solver {
    /// Plan the cranes until every container has left: each round picks up containers with
    /// free cranes (preferring targets near the exit, short approaches and short carries),
    /// carries them to their target cells, lets the other cranes wait or step aside, and
    /// updates the yard. Returns each crane's actions and the time step after the plan, or
    /// `None` when the plan would need a time step of `T` or more (or `T` rounds).
    #[verifier::rlimit(100)]
    #[verifier::spinoff_prover]
    pub fn sim(&self) -> (r: Option<(Vec<Vec<usize>>, usize)>)
        requires
            arrivals_ok(self.a@),
        ensures
            r matches Some(res) ==> acts_ok(res.0@) && res.1 >= 1,
    {
        let mut p: usize = 1usize << 30;
        let mut hand = Hand::new();
        for t in 0..2
            invariant
                plan_ok(hand.plan@),
                plan_ids_ok(hand.plan@),
        {
            for y in 0..N
                invariant
                    t < 2,
                    plan_ok(hand.plan@),
                    plan_ids_ok(hand.plan@),
            {
                let ghost pl = hand.plan@;
                hand.put(t, y, 0, Some(y));
                proof {
                    assert forall|u: int, z: int, x: int|
                        0 <= u < T && 0 <= z < N && 0 <= x < N && (#[trigger] at(hand.plan@[u]@, z, x)) is Some implies at(
                            hand.plan@[u]@,
                            z,
                            x,
                        )->0 < N by {
                        if !(u == t && z == y && x == 0) {
                            assert(at(hand.plan@[u]@, z, x) == at(pl[u]@, z, x));
                        }
                    }
                }
            }
        }
        let mut dist = cube_filled((p, 0));
        let mut pre = cube_filled((0, 0));
        assert(1usize << 30usize == 1073741824usize) by (bit_vector);
        p -= 1;
        let mut state = State::new(&self.a);
        let mut ti: usize = 1;
        let mut ans_acts: Vec<Vec<usize>> = Vec::new();
        for h in 0..N
            invariant
                ans_acts@.len() == h,
                forall|g: int| 0 <= g < h ==> (#[trigger] ans_acts@[g])@.len() == 0,
        {
            ans_acts.push(Vec::new());
        }
        proof {
            assert(stamps_above(dist@, p));
            assert(pre_ok(pre@));
            assert(lifted_empty(state));
            assert(arrivals_ready(state));
        }
        let mut li: usize = 0;
        loop
            invariant
                sim_ok(self.a@, hand.plan@, dist@, pre@, p, ans_acts@, state),
                arrivals_ready(state),
                li < T,
            decreases T - li,
        {
            if ti >= T {
                return None;
            }
            proof {
                lemma_ideal_callable(self.a@, &state);
            }
            let ideal = state.gen_ideal(&self.a);
            proof {
                assert forall|ci: int| 0 <= ci < N * N implies cell_ok(#[trigger] ideal@[ci]) by {
                    lemma_ideal_range(self.a@, &state, ci);
                }
            }
            // 1. move to the containers and lift them
            let mut drop_plan: Vec<(usize, (usize, usize), (usize, usize))> = Vec::new();
            let mut seen_his: usize = 0;
            let mut seen_cis: usize = 0;
            let dist0 = state.gen_dist0();
            let mut nti = ti + TDELTA;
            let mut non0_hand: usize = 0;
            loop
                invariant
                    sim_ok(self.a@, hand.plan@, dist@, pre@, p, ans_acts@, state),
                    arrivals_ready(state),
                    ti < T,
                    nti == ti + TDELTA,
                    seen_his < 32,
                    seen_his != 0 ==> nti < T,
                    non0_hand <= seen_his,
                    table_ok(dist0@),
                    ideal@.len() == N * N,
                    forall|ci: int| 0 <= ci < N * N ==> cell_ok(#[trigger] ideal@[ci]),
                    forall|i: int| 0 <= i < drop_plan@.len() ==> drop_ok(#[trigger] drop_plan@[i]),
                decreases 32 - seen_his,
            {
                let mut best_ev: Option<(usize, i64, i64)> = None;
                let mut best_pair: (usize, (usize, usize), usize, (usize, usize), (usize, usize)) = (
                    0,
                    (0, 0),
                    0,
                    (0, 0),
                    (0, 0),
                );
                let hands = hand.at(ti);
                proof {
                    lemma_hands_upto_range(hand.plan@[ti as int]@, (N * N) as int);
                }
                for c in 0..N * N
                    invariant
                        sim_ok(self.a@, hand.plan@, dist@, pre@, p, ans_acts@, state),
                        seen_his < 32,
                        table_ok(dist0@),
                        ideal@.len() == N * N,
                        forall|ci: int| 0 <= ci < N * N ==> cell_ok(#[trigger] ideal@[ci]),
                        forall|i: int|
                            0 <= i < hands@.len() ==> (#[trigger] hands@[i]).0 < N && hands@[i].1.0 < N
                                && hands@[i].1.1 < N,
                        best_ev is Some ==> {
                            &&& best_pair.0 < N
                            &&& (seen_his >> best_pair.0) & 1 == 0
                            &&& best_pair.1.0 < N
                            &&& best_pair.1.1 < N
                            &&& best_pair.2 < N * N
                            &&& best_pair.3.0 < N
                            &&& best_pair.3.1 < N
                            &&& best_pair.4.0 < N
                            &&& best_pair.4.1 < N
                        },
                {
                    let (cy, cx) = cell_of(c);
                    proof {
                        assert(state.container@[0]@ == state.level(0));
                    }
                    if let Some(ci) = state.container[0][cy][cx] {
                        assert(at(state.level(0), cy as int, cx as int) == Some(ci));
                        assert(ci < N * N);
                        for k in 0..hands.len()
                            invariant
                                sim_ok(self.a@, hand.plan@, dist@, pre@, p, ans_acts@, state),
                                seen_his < 32,
                                cy < N,
                                cx < N,
                                ci < N * N,
                                table_ok(dist0@),
                                ideal@.len() == N * N,
                                forall|ci: int| 0 <= ci < N * N ==> cell_ok(#[trigger] ideal@[ci]),
                                forall|i: int|
                                    0 <= i < hands@.len() ==> (#[trigger] hands@[i]).0 < N && hands@[i].1.0 < N
                                        && hands@[i].1.1 < N,
                                best_ev is Some ==> {
                                    &&& best_pair.0 < N
                                    &&& (seen_his >> best_pair.0) & 1 == 0
                                    &&& best_pair.1.0 < N
                                    &&& best_pair.1.1 < N
                                    &&& best_pair.2 < N * N
                                    &&& best_pair.3.0 < N
                                    &&& best_pair.3.1 < N
                                    &&& best_pair.4.0 < N
                                    &&& best_pair.4.1 < N
                                },
                        {
                            let (hi, (hy, hx)) = hands[k];
                            if (seen_his >> hi) & 1 == 0 && (seen_cis >> ci) & 1 == 0 {
                                if let Some((ty, tx)) = ideal[ci] {
                                    if let Some(go_move) = Self::calc_go_move(
                                        hi,
                                        cy,
                                        cx,
                                        ty,
                                        tx,
                                        &dist0,
                                        &state.container,
                                    ) {
                                        if go_move != 0 {
                                            let dy: i64 = cy as i64 - hy as i64;
                                            let dx: i64 = cx as i64 - hx as i64;
                                            let come_move: i64 = (if dy < 0 {
                                                -dy
                                            } else {
                                                dy
                                            }) + (if dx < 0 {
                                                -dx
                                            } else {
                                                dx
                                            });
                                            if !(hi > 0 && non0_hand >= NON0_HAND_LIM && come_move > 0) {
                                                let ev = (N - 1 - tx, come_move, go_move);
                                                if ev_better(ev, best_ev) {
                                                    best_ev = Some(ev);
                                                    best_pair = (hi, (hy, hx), ci, (cy, cx), (ty, tx));
                                                }
                                            }
                                        }
                                    }
                                }
                            }
                        }
                    }
                }
                if best_ev.is_none() {
                    break;
                }
                let (hi, (hy, hx), ci, (cy, cx), (ty, tx)) = best_pair;
                match Self::motion(
                    hi,
                    (hy, hx),
                    ti,
                    nti,
                    1usize << (cy * N + cx),
                    &mut p,
                    0,
                    &hand,
                    &mut dist,
                    &mut pre,
                ) {
                    None => {
                        return None;
                    },
                    Some(Some((ly, lx))) => {
                        Self::apply_trace(hi, ti, nti, ly, lx, &pre, &mut hand, &mut ans_acts);
                        proof {
                            lemma_mask_grows(seen_his, hi);
                        }
                        if hi > 0 {
                            non0_hand += 1;
                        }
                        seen_his = seen_his | (1usize << hi);
                        seen_cis = seen_cis | (1usize << ci);
                        drop_plan.push((hi, (cy, cx), (ty, tx)));
                    },
                    Some(None) => {
                        break;
                    },
                }
            }
            // 1. drop the trailing waits of the cranes that go to a container
            if seen_his != 0 {
                let mut his: Vec<usize> = Vec::new();
                for h in 0..N
                    invariant
                        forall|i: int| 0 <= i < his@.len() ==> #[trigger] his@[i] < N,
                {
                    if (seen_his >> h) & 1 != 0 {
                        his.push(h);
                    }
                }
                match Self::trim_waits(&his, nti, &mut hand, &mut ans_acts) {
                    Some(t) => {
                        nti = t;
                    },
                    None => {
                        return None;
                    },
                }
            }
            // 1. the other cranes wait where they are
            let hands = hand.at(ti);
            proof {
                lemma_hands_upto_range(hand.plan@[ti as int]@, (N * N) as int);
            }
            for k in 0..hands.len()
                invariant
                    sim_ok(self.a@, hand.plan@, dist@, pre@, p, ans_acts@, state),
                    arrivals_ready(state),
                    ti < T,
                    seen_his < 32,
                    forall|i: int|
                        0 <= i < hands@.len() ==> (#[trigger] hands@[i]).0 < N && hands@[i].1.0 < N
                            && hands@[i].1.1 < N,
                    forall|i: int| 0 <= i < drop_plan@.len() ==> drop_ok(#[trigger] drop_plan@[i]),
            {
                let (hi, (hy, hx)) = hands[k];
                if (seen_his >> hi) & 1 == 0 {
                    match Self::motion(
                        hi,
                        (hy, hx),
                        ti,
                        nti,
                        1usize << (hy * N + hx),
                        &mut p,
                        0,
                        &hand,
                        &mut dist,
                        &mut pre,
                    ) {
                        None => {
                            return None;
                        },
                        Some(Some((ly, lx))) => {
                            Self::apply_trace(hi, ti, nti, ly, lx, &pre, &mut hand, &mut ans_acts);
                            proof {
                                lemma_mask_small(seen_his, hi);
                            }
                            seen_his = seen_his | (1usize << hi);
                        },
                        Some(None) => {
                            Self::push_act(&mut ans_acts, hi, BOMB);
                            if ti + 1 >= T {
                                return None;
                            }
                            let ghost pl = hand.plan@;
                            hand.put(ti + 1, hy, hx, None);
                            proof {
                                assert forall|u: int, z: int, x: int|
                                    0 <= u < T && 0 <= z < N && 0 <= x < N && (#[trigger] at(hand.plan@[u]@, z, x)) is Some
                                        implies at(hand.plan@[u]@, z, x)->0 < N by {
                                    assert(at(hand.plan@[u]@, z, x) == at(pl[u]@, z, x));
                                }
                            }
                        },
                    }
                }
            }
            ti = nti;
            let drop_plan = sort_drop_plan(drop_plan);
            // 2. carry the containers and put them down
            if ti >= T {
                return None;
            }
            let mut nti = ti + 1 + TDELTA;
            let mut seen_his: usize = 0;
            let mut static_block0: usize = 0;
            for y in 0..N {
                static_block0 = static_block0 | (1usize << (y * N));
            }
            let mut static_block1: usize = 0;
            for y in 0..N
                invariant
                    state.well_formed(),
            {
                let mut row: usize = 1usize << (y * N);
                for x in 0..N
                    invariant
                        y < N,
                        state.well_formed(),
                {
                    proof {
                        lemma_unflat(y as int, x as int);
                        assert(state.container@[0]@ == state.level(0));
                    }
                    if state.container[0][y][x].is_some() {
                        let mut source = false;
                        for i in 0..drop_plan.len() {
                            let (_h, (sy, sx), _t) = drop_plan[i];
                            if sy == y && sx == x {
                                source = true;
                            }
                        }
                        if !source {
                            row = row | (1usize << (y * N + x));
                        }
                    }
                }
                static_block1 = static_block1 | row;
            }
            assert(1usize << 25usize == 33554432usize) by (bit_vector);
            let mut tgt_area: usize = (1usize << (N * N)) - 1;
            let mut reach_info: Vec<(usize, (usize, usize), (usize, usize))> = Vec::new();
            for i in 0..drop_plan.len()
                invariant
                    sim_ok(self.a@, hand.plan@, dist@, pre@, p, ans_acts@, state),
                    ti < T,
                    nti == ti + 1 + TDELTA,
                    seen_his < 32,
                    forall|i: int| 0 <= i < drop_plan@.len() ==> drop_ok(#[trigger] drop_plan@[i]),
                    forall|i: int| 0 <= i < reach_info@.len() ==> drop_ok(#[trigger] reach_info@[i]),
                    reach_info@.len() > 0 ==> nti < T,
            {
                let (hi, (sy, sx), (ty, tx)) = drop_plan[i];
                proof {
                    assert(drop_ok(drop_plan@[i as int]));
                    assert(state.container@[0]@ == state.level(0));
                }
                if state.container[0][sy][sx].is_none() {
                    return None;
                }
                proof {
                    lemma_unflat(ty as int, tx as int);
                }
                let block = if hi == 0 {
                    static_block0
                } else {
                    static_block1
                };
                match Self::motion(
                    hi,
                    (sy, sx),
                    ti + 1,
                    nti,
                    1usize << (ty * N + tx),
                    &mut p,
                    block,
                    &hand,
                    &mut dist,
                    &mut pre,
                ) {
                    None => {
                        return None;
                    },
                    Some(Some((ly, lx))) => {
                        proof {
                            lemma_mask_small(seen_his, hi);
                            lemma_unflat(ly as int, lx as int);
                        }
                        seen_his = seen_his | (1usize << hi);
                        tgt_area = tgt_area & !(1usize << (ly * N + lx));
                        Self::push_act(&mut ans_acts, hi, CAP_SWITCH);
                        let ghost pl = hand.plan@;
                        hand.put(ti + 1, sy, sx, Some(hi));
                        proof {
                            assert forall|u: int, z: int, x: int|
                                0 <= u < T && 0 <= z < N && 0 <= x < N && (#[trigger] at(hand.plan@[u]@, z, x)) is Some
                                    implies at(hand.plan@[u]@, z, x)->0 < N by {
                                if !(u == ti + 1 && z == sy && x == sx) {
                                    assert(at(hand.plan@[u]@, z, x) == at(pl[u]@, z, x));
                                }
                            }
                        }
                        Self::apply_trace(hi, ti + 1, nti, ly, lx, &pre, &mut hand, &mut ans_acts);
                        reach_info.push((hi, (sy, sx), (ly, lx)));
                    },
                    Some(None) => {},
                }
            }
            // 2. drop the trailing waits of the carrying cranes and put the containers down
            if reach_info.len() > 0 {
                let mut his: Vec<usize> = Vec::new();
                for i in 0..reach_info.len()
                    invariant
                        forall|i: int| 0 <= i < reach_info@.len() ==> drop_ok(#[trigger] reach_info@[i]),
                        forall|i: int| 0 <= i < his@.len() ==> #[trigger] his@[i] < N,
                {
                    proof {
                        assert(drop_ok(reach_info@[i as int]));
                    }
                    his.push(reach_info[i].0);
                }
                match Self::trim_waits(&his, nti, &mut hand, &mut ans_acts) {
                    Some(t) => {
                        nti = t;
                    },
                    None => {
                        return None;
                    },
                }
                for i in 0..reach_info.len()
                    invariant
                        sim_ok(self.a@, hand.plan@, dist@, pre@, p, ans_acts@, state),
                        ti < T,
                        nti < T,
                        forall|i: int| 0 <= i < reach_info@.len() ==> drop_ok(#[trigger] reach_info@[i]),
                {
                    let (hi, (sy, sx), (ly, lx)) = reach_info[i];
                    proof {
                        assert(drop_ok(reach_info@[i as int]));
                    }
                    let ghost s0 = state;
                    let moved = state.relocate(sy, sx, ly, lx);
                    if !moved {
                        return None;
                    }
                    proof {
                        assert forall|y: int, x: int| 0 <= y < N && 0 <= x < N implies #[trigger] at(state.level(1), y, x)
                            is None by {
                            assert(at(s0.level(1), y, x) is None);
                        }
                    }
                    Self::push_act(&mut ans_acts, hi, CAP_SWITCH);
                    if nti + 1 >= T {
                        return None;
                    }
                    let ghost pl = hand.plan@;
                    hand.put(nti + 1, ly, lx, Some(hi));
                    proof {
                        assert forall|u: int, z: int, x: int|
                            0 <= u < T && 0 <= z < N && 0 <= x < N && (#[trigger] at(hand.plan@[u]@, z, x)) is Some
                                implies at(hand.plan@[u]@, z, x)->0 < N by {
                            if !(u == nti + 1 && z == ly && x == lx) {
                                assert(at(hand.plan@[u]@, z, x) == at(pl[u]@, z, x));
                            }
                        }
                    }
                }
            }
            // 2. the other cranes step aside into the free area
            let hands = hand.at(ti);
            proof {
                lemma_hands_upto_range(hand.plan@[ti as int]@, (N * N) as int);
            }
            for k in 0..hands.len()
                invariant
                    sim_ok(self.a@, hand.plan@, dist@, pre@, p, ans_acts@, state),
                    ti < T,
                    nti < T + TDELTA + 1,
                    seen_his < 32,
                    forall|i: int|
                        0 <= i < hands@.len() ==> (#[trigger] hands@[i]).0 < N && hands@[i].1.0 < N
                            && hands@[i].1.1 < N,
            {
                let (hi, (hy, hx)) = hands[k];
                if (seen_his >> hi) & 1 == 0 {
                    match Self::motion(
                        hi,
                        (hy, hx),
                        ti,
                        nti + 1,
                        tgt_area,
                        &mut p,
                        0,
                        &hand,
                        &mut dist,
                        &mut pre,
                    ) {
                        None => {
                            return None;
                        },
                        Some(Some((ly, lx))) => {
                            Self::apply_trace(hi, ti, nti + 1, ly, lx, &pre, &mut hand, &mut ans_acts);
                        },
                        Some(None) => {
                            Self::push_act(&mut ans_acts, hi, BOMB);
                            if ti + 1 >= T {
                                return None;
                            }
                            let ghost pl = hand.plan@;
                            hand.put(ti + 1, hy, hx, None);
                            proof {
                                assert forall|u: int, z: int, x: int|
                                    0 <= u < T && 0 <= z < N && 0 <= x < N && (#[trigger] at(hand.plan@[u]@, z, x)) is Some
                                        implies at(hand.plan@[u]@, z, x)->0 < N by {
                                    assert(at(hand.plan@[u]@, z, x) == at(pl[u]@, z, x));
                                }
                            }
                        },
                    }
                }
            }
            ti = nti + 1;
            let ghost s0 = state;
            state.update_backyard(&self.a);
            proof {
                lemma_ready_after_backyard(self.a@, s0, state);
            }
            let ghost s1 = state;
            state.update_seeks();
            proof {
                assert forall|y: int| 0 <= y < N && #[trigger] state.backyard_of()[y] < N implies at(
                    state.level(0),
                    y,
                    0,
                ) is Some by {
                    assert(at(s1.level(0), y, 0) is Some);
                }
                assert forall|y: int, x: int| 0 <= y < N && 0 <= x < N implies #[trigger] at(state.level(1), y, x)
                    is None by {
                    assert(at(s1.level(1), y, x) is None);
                }
            }
            if state.has_end() {
                return Some((ans_acts, ti));
            }
            li += 1;
            if li >= T {
                return None;
            }
        }
    }
}

/// `a` is an `N x N` grid of container ids below `N * N`.
pub fn arrivals_ok_exec(a: &Vec<Vec<usize>>) -> (r: bool)
    ensures
        r == arrivals_ok(a@),
{
    if a.len() != N {
        return false;
    }
    for y in 0..N
        invariant
            a@.len() == N,
            forall|j: int| 0 <= j < y ==> (#[trigger] a@[j])@.len() == N,
            forall|j: int, x: int| 0 <= j < y && 0 <= x < N ==> #[trigger] at(a@, j, x) < N * N,
    {
        if a[y].len() != N {
            return false;
        }
        for x in 0..N
            invariant
                a@.len() == N,
                y < N,
                a@[y as int]@.len() == N,
                forall|j: int| 0 <= j < y ==> (#[trigger] a@[j])@.len() == N,
                forall|j: int, w: int|
                    0 <= j < N && 0 <= w < N && (j < y || (j == y && w < x)) ==> #[trigger] at(a@, j, w) < N * N,
        {
            if a[y][x] >= N * N {
                assert(at(a@, y as int, x as int) >= N * N);
                return false;
            }
        }
    }
    true
}

/// Whether the crane holds a container after the first `k` actions of `acts`: each grab or
/// release switches it.
pub open spec fn held_after(acts: Seq<usize>, k: int) -> bool
    decreases k,
{
    if k <= 0 {
        false
    } else {
        held_after(acts, k - 1) != (acts[k - 1] == CAP_SWITCH)
    }
}

/// The letter of an action: a switch reads `P` when it grabs and `Q` when it releases.
pub open spec fn act_char(a: usize, held: bool) -> char {
    if a == STAY {
        '.'
    } else if a == MOVE_LEFT {
        'L'
    } else if a == MOVE_RIGHT {
        'R'
    } else if a == MOVE_UP {
        'U'
    } else if a == MOVE_DOWN {
        'D'
    } else if a == CAP_SWITCH {
        if held {
            'Q'
        } else {
            'P'
        }
    } else {
        'B'
    }
}

/// The letters of one crane's actions, as the answer writes them.
pub fn answer_line(acts: &Vec<usize>) -> (r: Vec<char>)
    requires
        forall|k: int| 0 <= k < acts@.len() ==> #[trigger] acts@[k] <= BOMB,
    ensures
        r@.len() == acts@.len(),
        forall|k: int| 0 <= k < acts@.len() ==> #[trigger] r@[k] == act_char(acts@[k], held_after(acts@, k)),
{
    let mut r: Vec<char> = Vec::new();
    let mut cap = false;
    for k in 0..acts.len()
        invariant
            r@.len() == k,
            cap == held_after(acts@, k as int),
            forall|j: int| 0 <= j < k ==> #[trigger] r@[j] == act_char(acts@[j], held_after(acts@, j)),
    {
        let a = acts[k];
        let c = if a == STAY {
            '.'
        } else if a == MOVE_LEFT {
            'L'
        } else if a == MOVE_RIGHT {
            'R'
        } else if a == MOVE_UP {
            'U'
        } else if a == MOVE_DOWN {
            'D'
        } else if a == CAP_SWITCH {
            cap = !cap;
            if cap {
                'P'
            } else {
                'Q'
            }
        } else {
            'B'
        };
        r.push(c);
    }
    r
}

} // verus!