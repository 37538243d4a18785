//! A two-dimensional segment tree: a segment tree over rows whose nodes are segment trees
//! over columns.
use vstd::prelude::*;
use crate::segment_tree::{
    fold, is_ancestor, lemma_fold_ext, lemma_fold_pointwise, lemma_fold_split, lemma_node_value,
    nodes_consistent, pow2k, CommutativePairOp, PairOp, SegmentTree,
};

verus! {

/// Every internal row node `1 <= j < h` holds, column by column, the combination of its
/// two children.
pub open spec fn columns_consistent<T, Op: PairOp<T>>(v: Seq<Seq<T>>, h: int, w: int) -> bool {
    forall|j: int, c: int|
        1 <= j < h && 0 <= c < w ==> #[trigger] v[j][c] == Op::spec_pair(v[2 * j][c], v[2 * j + 1][c])
}

/// The fold over the rectangle of rows `[y0, y1)` and columns `[x0, x1)`: rows folded one by
/// one over the columns, then the row results folded.
pub open spec fn rect_fold<T, Op: PairOp<T>>(rows: Seq<Seq<T>>, y0: int, y1: int, x0: int, x1: int) -> T {
    fold::<T, Op>(Seq::new(rows.len(), |y: int| fold::<T, Op>(rows[y], x0, x1)), y0, y1)
}

/// A heap node's parent is an ancestor of whatever the node is an ancestor of; a node is an
/// ancestor of `p` exactly when it is `p` or an ancestor of `p / 2`.
proof fn lemma_ancestor_up(m: int, p: int)
    requires
        m >= 2,
        is_ancestor(m, p),
    ensures
        is_ancestor(m / 2, p),
    decreases p,
{
    if p == m {
        assert(is_ancestor(m / 2, m / 2));
    } else if p == m / 2 {
    } else {
        lemma_ancestor_up(m, p / 2);
    }
}

/// `j` is an ancestor of `p / 2` exactly when it is an ancestor of `p` other than `p` itself
/// (for `p >= 2`), and no node is an ancestor of `0`.
proof fn lemma_ancestor_step(j: int, p: int)
    requires
        j >= 1,
    ensures
        p >= 1 ==> (is_ancestor(j, p) <==> (j == p || is_ancestor(j, p / 2))),
        !is_ancestor(j, 0),
        is_ancestor(2 * j, p) ==> is_ancestor(j, p),
        is_ancestor(2 * j + 1, p) ==> is_ancestor(j, p),
{
    if is_ancestor(2 * j, p) {
        lemma_ancestor_up(2 * j, p);
    }
    if is_ancestor(2 * j + 1, p) {
        lemma_ancestor_up(2 * j + 1, p);
    }
}

/// Every internal node `1 <= j < h` has a leaf `h <= k < 2h` below it.
proof fn lemma_leaf_below(j: int, h: int) -> (k: int)
    requires
        1 <= j < h,
    ensures
        h <= k < 2 * h,
        is_ancestor(j, k),
    decreases h - j,
{
    assert(is_ancestor(j, 2 * j)) by {
        assert(is_ancestor(j, j));
    }
    if 2 * j >= h {
        2 * j
    } else {
        let k = lemma_leaf_below(2 * j, h);
        lemma_ancestor_up(2 * j, k);
        k
    }
}

/// A grid of `h` rows and `w` columns.
pub struct SegmentTree2D<T, Op> {
    h: usize,
    w: usize,
    segs: Vec<SegmentTree<T, Op>>,
    pair_op: Op,
    /// The row nodes `(j, c)` not recomputed from their children since the grid was made.
    stale: Ghost<Set<(int, int)>>,
    /// The cells written by `set` so far.
    cells_written: Ghost<Set<(int, int)>>,
}

impl<T: Copy, Op: CommutativePairOp<T> + Copy> SegmentTree2D<T, Op> {
    /// The views of all row nodes.
    closed spec fn node_views(&self) -> Seq<Seq<T>> {
        self.segs@.map_values(|t: SegmentTree<T, Op>| t@)
    }

    /// The rows of the grid.
    pub closed spec fn rows(&self) -> Seq<Seq<T>> {
        Seq::new(self.h as nat, |y: int| self.segs@[self.h + y]@)
    }

    /// Number of columns.
    pub closed spec fn width(&self) -> nat {
        self.w as nat
    }

    /// The internal invariant: the shape; every row node that is not stale combines its two
    /// children; and no cell below a stale row node has been written.
    pub closed spec fn well_formed(&self) -> bool {
        &&& self.shape_ok()
        &&& forall|j: int, c: int|
            1 <= j < self.h && 0 <= c < self.w && !self.stale@.contains((j, c)) ==> #[trigger] self.node_views()[j][c]
                == Op::spec_pair(self.node_views()[2 * j][c], self.node_views()[2 * j + 1][c])
        &&& forall|j: int, c: int, k: int|
            #![trigger self.stale@.contains((j, c)), is_ancestor(j, k)]
            self.stale@.contains((j, c)) && self.h <= k < 2 * self.h && is_ancestor(j, k) ==> !self.cells_written@.contains(
                (k - self.h, c),
            )
    }

    /// Every row node combines its two children, so rectangle queries hold.
    pub closed spec fn settled(&self) -> bool {
        forall|j: int, c: int| 1 <= j < self.h && 0 <= c < self.w ==> !#[trigger] self.stale@.contains((j, c))
    }

    /// The cells `(y, x)` written by `set` (or `add`, `sub`) so far.
    pub closed spec fn written(&self) -> Set<(int, int)> {
        self.cells_written@
    }

    /// Once every cell has been written, the grid is settled.
    pub proof fn lemma_all_written_settled(&self)
        requires
            self.well_formed(),
            forall|y: int, x: int| 0 <= y < self.rows().len() && 0 <= x < self.width() ==> #[trigger] self.written().contains((y, x)),
        ensures
            self.settled(),
    {
        assert forall|j: int, c: int| 1 <= j < self.h && 0 <= c < self.w implies !#[trigger] self.stale@.contains((j, c)) by {
            let k = lemma_leaf_below(j, self.h as int);
            if self.stale@.contains((j, c)) {
                assert(self.written().contains((k - self.h, c)));
            }
        }
    }

    proof fn lemma_settled_consistent(&self)
        requires
            self.well_formed(),
            self.settled(),
        ensures
            columns_consistent::<T, Op>(self.node_views(), self.h as int, self.w as int),
    {
        assert forall|j: int, c: int| 1 <= j < self.h && 0 <= c < self.w implies #[trigger] self.node_views()[j][c]
            == Op::spec_pair(self.node_views()[2 * j][c], self.node_views()[2 * j + 1][c]) by {
            assert(!self.stale@.contains((j, c)));
        }
    }

    /// The shape: `2 * h` row nodes, each a segment tree of `w` cells.
    pub closed spec fn shape_ok(&self) -> bool {
        &&& self.segs@.len() == 2 * self.h
        &&& self.h <= usize::MAX / 2
        &&& self.w <= usize::MAX / 2
        &&& forall|j: int|
            0 <= j < 2 * self.h ==> (#[trigger] self.segs@[j]).well_formed() && self.segs@[j]@.len()
                == self.w
    }

    /// Every row of the grid has `width()` cells.
    pub proof fn lemma_row_width(&self)
        requires
            self.well_formed(),
        ensures
            forall|y: int| 0 <= y < self.rows().len() ==> #[trigger] self.rows()[y].len() == self.width(),
    {
        assert forall|y: int| 0 <= y < self.rows().len() implies #[trigger] self.rows()[y].len() == self.width() by {
            assert(self.segs@[self.h + y]@.len() == self.w);
        }
    }

    /// A grid of `h` rows and `w` columns filled with `ini_val`. Every row node starts as
    /// `ini_val` too, so the row nodes combine their children (and rectangle queries hold)
    /// when `ini_val` is neutral on itself.
    pub fn new(h: usize, w: usize, pair_op: Op, ini_val: T) -> (r: Self)
        requires
            h <= usize::MAX / 2,
            w <= usize::MAX / 2,
        ensures
            r.well_formed(),
            r.written() == Set::<(int, int)>::empty(),
            Op::spec_pair(ini_val, ini_val) == ini_val ==> r.settled(),
            r.width() == w,
            r.rows() == Seq::new(h as nat, |y: int| Seq::new(w as nat, |x: int| ini_val)),
    {
        let mut segs: Vec<SegmentTree<T, Op>> = Vec::new();
        let mut i: usize = 0;
        while i < 2 * h
            invariant
                i <= 2 * h,
                h <= usize::MAX / 2,
                w <= usize::MAX / 2,
                segs@.len() == i,
                forall|j: int|
                    0 <= j < i ==> (#[trigger] segs@[j]).well_formed() && segs@[j]@ == Seq::new(
                        w as nat,
                        |x: int| ini_val,
                    ),
            decreases 2 * h - i,
        {
            segs.push(SegmentTree::new(w, pair_op, ini_val));
            i += 1;
        }
        let ghost idem = Op::spec_pair(ini_val, ini_val) == ini_val;
        let r = SegmentTree2D {
            h,
            w,
            segs,
            pair_op,
            stale: Ghost(if idem { Set::empty() } else { Set::new(|p: (int, int)| true) }),
            cells_written: Ghost(Set::empty()),
        };
        assert(r.rows() =~= Seq::new(h as nat, |y: int| Seq::new(w as nat, |x: int| ini_val)));
        r
    }

    /// Replace the cell `(y, x)` by `val`.
    pub fn set(&mut self, y: usize, x: usize, val: T)
        requires
            old(self).well_formed(),
            y < old(self).rows().len(),
            x < old(self).width(),
        ensures
            final(self).well_formed(),
            final(self).written() == old(self).written().insert((y as int, x as int)),
            old(self).settled() ==> final(self).settled(),
            final(self).width() == old(self).width(),
            final(self).rows() == old(self).rows().update(
                y as int,
                old(self).rows()[y as int].update(x as int, val),
            ),
    {
        let h = self.h;
        let w = self.w;
        let yy = y + h;
        self.segs[yy].set(x, val);
        let ghost v1 = self.node_views();
        let ghost st = old(self).stale@;
        assert forall|j: int, c: int|
            !st.contains((j, c)) && 1 <= j < h && 0 <= c < w && (c != x || !is_ancestor(j, (yy / 2) as int)) implies #[trigger] v1[j][c]
            == Op::spec_pair(v1[2 * j][c], v1[2 * j + 1][c]) by {
            assert(old(self).node_views()[j][c] == Op::spec_pair(old(self).node_views()[2 * j][c], old(self).node_views()[2 * j + 1][c]));
        }
        let mut par = yy / 2;
        while par >= 1
            invariant
                self.h == h,
                self.w == w,
                self.segs@.len() == 2 * h,
                w <= usize::MAX / 2,
                h <= usize::MAX / 2,
                h <= yy < 2 * h,
                x < w,
                par < h,
                forall|j: int|
                    0 <= j < 2 * h ==> (#[trigger] self.segs@[j]).well_formed() && self.segs@[j]@.len()
                        == w,
                forall|j: int| h <= j < 2 * h ==> #[trigger] self.segs@[j]@ == if j == yy {
                    old(self).segs@[j]@.update(x as int, val)
                } else {
                    old(self).segs@[j]@
                },
                st == old(self).stale@,
                self.stale == old(self).stale,
                self.cells_written == old(self).cells_written,
                forall|j: int, c: int|
                    1 <= j < h && 0 <= c < w && ((!st.contains((j, c)) && (c != x || !is_ancestor(j, par as int))) || (c == x
                        && is_ancestor(j, yy as int) && !is_ancestor(j, par as int))) ==> #[trigger] self.node_views()[j][c]
                        == Op::spec_pair(self.node_views()[2 * j][c], self.node_views()[2 * j + 1][c]),
            decreases par,
        {
            let l = par * 2;
            let r = l + 1;
            let lv = self.segs[l].get(x);
            let rv = self.segs[r].get(x);
            let v = self.pair_op.pair(lv, rv);
            let ghost before = self.node_views();
            self.segs[par].set(x, v);
            proof {
                let after = self.node_views();
                assert forall|j: int, c: int|
                    1 <= j < h && 0 <= c < w && ((!st.contains((j, c)) && (c != x || !is_ancestor(j, (par / 2) as int))) || (c
                        == x && is_ancestor(j, yy as int) && !is_ancestor(j, (par / 2) as int))) implies #[trigger] after[j][c]
                    == Op::spec_pair(after[2 * j][c], after[2 * j + 1][c]) by {
                    lemma_ancestor_step(j, par as int);
                    if j == par {
                        assert(after[j][c] == if c == x { v } else { before[j][c] });
                        assert(after[2 * j][c] == before[2 * j][c]);
                        assert(after[2 * j + 1][c] == before[2 * j + 1][c]);
                    } else {
                        if c == x {
                            assert(!is_ancestor(j, par as int));
                            assert(2 * j != par && 2 * j + 1 != par);
                        }
                        assert(after[j][c] == before[j][c]);
                        assert(after[2 * j][c] == before[2 * j][c]);
                        assert(after[2 * j + 1][c] == before[2 * j + 1][c]);
                    }
                }
            }
            par /= 2;
        }
        let ghost new_stale = st.filter(|p: (int, int)| !(p.1 == x && is_ancestor(p.0, yy as int)));
        let ghost nv = self.node_views();
        proof {
            assert forall|j: int, c: int|
                1 <= j < h && 0 <= c < w && !new_stale.contains((j, c)) implies #[trigger] nv[j][c]
                == Op::spec_pair(nv[2 * j][c], nv[2 * j + 1][c]) by {
                lemma_ancestor_step(j, 0);
                assert(!st.contains((j, c)) || (c == x && is_ancestor(j, yy as int)));
            }
        }
        self.stale = Ghost(new_stale);
        self.cells_written = Ghost(old(self).cells_written@.insert((y as int, x as int)));
        proof {
            assert(self.node_views() == nv);
            assert forall|j: int, c: int, k: int|
                #![trigger self.stale@.contains((j, c)), is_ancestor(j, k)]
                self.stale@.contains((j, c)) && h <= k < 2 * h && is_ancestor(j, k) implies !self.cells_written@.contains((k - h, c)) by {
                assert(st.contains((j, c)));
                if k - h == y && c == x {
                    assert(k == yy);
                }
            }
        }
        assert(self.rows() =~= old(self).rows().update(y as int, old(self).rows()[y as int].update(x as int, val)));
    }

    /// The cell `(y, x)`.
    pub fn get(&self, y: usize, x: usize) -> (r: T)
        requires
            self.well_formed(),
            y < self.rows().len(),
            x < self.width(),
        ensures
            r == self.rows()[y as int][x as int],
    {
        self.segs[y + self.h].get(x)
    }

    /// The fold over the rectangle of rows `[y0, y1]` and columns `[x0, x1]`.
    pub fn query(&self, y0: usize, y1: usize, x0: usize, x1: usize) -> (r: T)
        requires
            self.well_formed(),
            self.settled(),
            y0 <= y1 < self.rows().len(),
            x0 <= x1 < self.width(),
        ensures
            r == rect_fold::<T, Op>(self.rows(), y0 as int, y1 + 1, x0 as int, x1 + 1),
    {
        proof {
            self.lemma_settled_consistent();
        }
        let h = self.h;
        let ghost views = self.node_views();
        let ghost vals = Seq::new(2 * h as nat, |j: int| fold::<T, Op>(views[j], x0 as int, x1 + 1));
        proof {
            assert forall|j: int| 1 <= j < h implies #[trigger] vals[j] == Op::spec_pair(vals[2 * j], vals[2 * j + 1]) by {
                assert forall|c: int| x0 <= c < x1 + 1 implies #[trigger] views[j][c] == Op::spec_pair(views[2 * j][c], views[2 * j + 1][c]) by {
                    assert(views[j][c] == Op::spec_pair(views[2 * j][c], views[2 * j + 1][c]));
                }
                lemma_fold_pointwise::<T, Op>(views[2 * j], views[2 * j + 1], views[j], x0 as int, x1 + 1);
            }
            assert(nodes_consistent::<T, Op>(vals, h as int));
        }
        let a0 = y0 + h;
        let b0 = y1 + h + 1;
        let mut lo = a0;
        let mut hi = b0;
        let mut aval: Option<T> = None;
        let mut bval: Option<T> = None;
        let ghost mut k: nat = 0;
        while lo < hi
            invariant
                self.well_formed(),
                views == self.node_views(),
                vals == Seq::new(2 * h as nat, |j: int| fold::<T, Op>(views[j], x0 as int, x1 + 1)),
                nodes_consistent::<T, Op>(vals, h as int),
                h == self.h,
                x0 <= x1 < self.w,
                h <= a0 < b0 <= 2 * h,
                lo <= hi,
                pow2k(k) >= 1,
                a0 <= lo * pow2k(k),
                lo * pow2k(k) <= hi * pow2k(k),
                hi * pow2k(k) <= b0,
                aval is None <==> lo * pow2k(k) == a0,
                aval matches Some(v) ==> v == fold::<T, Op>(vals, a0 as int, lo * pow2k(k)),
                bval is None <==> hi * pow2k(k) == b0,
                bval matches Some(v) ==> v == fold::<T, Op>(vals, hi * pow2k(k), b0 as int),
            decreases hi - lo,
        {
            let ghost p = pow2k(k);
            if lo % 2 == 1 {
                assert((lo + 1) * p == lo * p + p) by (nonlinear_arith);
                assert(lo * p + p <= hi * p) by (nonlinear_arith)
                    requires
                        lo < hi,
                        p >= 1,
                ;
                assert(lo < 2 * h) by (nonlinear_arith)
                    requires
                        lo < hi,
                        hi * p <= 2 * h,
                        p >= 1,
                ;
                proof {
                    lemma_node_value::<T, Op>(vals, h as int, lo as int, k);
                }
                let node = self.segs[lo].query(x0, x1);
                aval = match aval {
                    Some(aval0) => {
                        proof {
                            lemma_fold_split::<T, Op>(vals, a0 as int, lo * p, lo * p + p);
                        }
                        Some(self.pair_op.pair(aval0, node))
                    },
                    None => Some(node),
                };
                lo += 1;
            }
            if hi % 2 == 1 {
                assert(hi <= 2 * h) by (nonlinear_arith)
                    requires
                        hi * p <= 2 * h,
                        p >= 1,
                ;
                hi -= 1;
                assert((hi + 1) * p == hi * p + p) by (nonlinear_arith);
                assert(lo * p <= hi * p) by (nonlinear_arith)
                    requires
                        lo <= hi,
                        p >= 1,
                ;
                assert(hi >= 1) by (nonlinear_arith)
                    requires
                        hi * p >= h,
                        h >= 1,
                        p >= 1,
                ;
                proof {
                    lemma_node_value::<T, Op>(vals, h as int, hi as int, k);
                }
                let node = self.segs[hi].query(x0, x1);
                bval = match bval {
                    Some(bval0) => {
                        proof {
                            lemma_fold_split::<T, Op>(vals, hi * p, hi * p + p, b0 as int);
                        }
                        Some(self.pair_op.pair(node, bval0))
                    },
                    None => Some(node),
                };
            }
            assert(lo <= hi) by (nonlinear_arith)
                requires
                    lo * p <= hi * p,
                    p >= 1,
            ;
            assert((lo / 2) * (2 * p) == lo * p) by (nonlinear_arith)
                requires
                    lo % 2 == 0,
            ;
            assert((hi / 2) * (2 * p) == hi * p) by (nonlinear_arith)
                requires
                    hi % 2 == 0,
            ;
            lo /= 2;
            hi /= 2;
            proof {
                k = k + 1;
            }
        }
        proof {
            let rows = self.rows();
            let rf = Seq::new(rows.len(), |y: int| fold::<T, Op>(rows[y], x0 as int, x1 + 1));
            assert forall|i: int| y0 <= i < y1 + 1 implies rf[i] == vals[i + h] by {}
            lemma_fold_ext::<T, Op>(rf, vals, y0 as int, y1 + 1, h as int);
        }
        match aval {
            Some(av) => match bval {
                Some(bv) => {
                    proof {
                        lemma_fold_split::<T, Op>(vals, a0 as int, lo * pow2k(k), b0 as int);
                    }
                    self.pair_op.pair(av, bv)
                },
                None => av,
            },
            None => bval.unwrap(),
        }
    }
}

impl<Op: CommutativePairOp<i64> + Copy> SegmentTree2D<i64, Op> {
    /// Add `add_val` to the cell `(y, x)`.
    pub fn add(&mut self, y: usize, x: usize, add_val: i64)
        requires
            old(self).well_formed(),
            y < old(self).rows().len(),
            x < old(self).width(),
            i64::MIN <= old(self).rows()[y as int][x as int] + add_val <= i64::MAX,
        ensures
            final(self).well_formed(),
            final(self).written() == old(self).written().insert((y as int, x as int)),
            old(self).settled() ==> final(self).settled(),
            final(self).width() == old(self).width(),
            final(self).rows() == old(self).rows().update(
                y as int,
                old(self).rows()[y as int].update(
                    x as int,
                    (old(self).rows()[y as int][x as int] + add_val) as i64,
                ),
            ),
    {
        let v = self.get(y, x);
        self.set(y, x, v + add_val);
    }

    /// Subtract `sub_val` from the cell `(y, x)`.
    pub fn sub(&mut self, y: usize, x: usize, sub_val: i64)
        requires
            old(self).well_formed(),
            y < old(self).rows().len(),
            x < old(self).width(),
            i64::MIN <= old(self).rows()[y as int][x as int] - sub_val <= i64::MAX,
        ensures
            final(self).well_formed(),
            final(self).written() == old(self).written().insert((y as int, x as int)),
            old(self).settled() ==> final(self).settled(),
            final(self).width() == old(self).width(),
            final(self).rows() == old(self).rows().update(
                y as int,
                old(self).rows()[y as int].update(
                    x as int,
                    (old(self).rows()[y as int][x as int] - sub_val) as i64,
                ),
            ),
    {
        let v = self.get(y, x);
        self.set(y, x, v - sub_val);
    }
}

} // verus!
