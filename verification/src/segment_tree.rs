//! Point-update / range-fold segment tree over an associative operation.
use vstd::prelude::*;

verus! {

/// An associative binary operation on `T`: the operation a segment tree folds with.
pub trait PairOp<T> {
    /// The mathematical value of `pair(a, b)`.
    spec fn spec_pair(a: T, b: T) -> T;

    /// The operation is associative.
    proof fn lemma_associative(a: T, b: T, c: T)
        ensures
            Self::spec_pair(Self::spec_pair(a, b), c) == Self::spec_pair(a, Self::spec_pair(b, c)),
    ;

    fn pair(&self, a: T, b: T) -> (r: T)
        ensures
            r == Self::spec_pair(a, b),
    ;
}

/// An associative operation that is also commutative.
pub trait CommutativePairOp<T>: PairOp<T> {
    proof fn lemma_commutative(a: T, b: T)
        ensures
            Self::spec_pair(a, b) == Self::spec_pair(b, a),
    ;
}

/// Left fold of `op` over the non-empty range `s[lo..hi]`.
pub open spec fn fold<T, Op: PairOp<T>>(s: Seq<T>, lo: int, hi: int) -> T
    decreases hi - lo,
{
    if hi - lo <= 1 {
        s[lo]
    } else {
        Op::spec_pair(fold::<T, Op>(s, lo, hi - 1), s[hi - 1])
    }
}

/// Folding a range equals combining the folds of its two halves.
pub proof fn lemma_fold_split<T, Op: PairOp<T>>(s: Seq<T>, lo: int, mid: int, hi: int)
    requires
        lo < mid < hi,
    ensures
        fold::<T, Op>(s, lo, hi) == Op::spec_pair(fold::<T, Op>(s, lo, mid), fold::<T, Op>(s, mid, hi)),
    decreases hi - mid,
{
    if hi == mid + 1 {
    } else {
        lemma_fold_split::<T, Op>(s, lo, mid, hi - 1);
        Op::lemma_associative(fold::<T, Op>(s, lo, mid), fold::<T, Op>(s, mid, hi - 1), s[hi - 1]);
    }
}

/// The fold of a range only depends on the elements inside it.
pub proof fn lemma_fold_ext<T, Op: PairOp<T>>(s: Seq<T>, t: Seq<T>, lo: int, hi: int, shift: int)
    requires
        lo < hi,
        forall|i: int| lo <= i < hi ==> s[i] == t[i + shift],
    ensures
        fold::<T, Op>(s, lo, hi) == fold::<T, Op>(t, lo + shift, hi + shift),
    decreases hi - lo,
{
    if hi - lo > 1 {
        lemma_fold_ext::<T, Op>(s, t, lo, hi - 1, shift);
    }
}

/// Reduce an integer in `[2 * i64::MIN, 2 * i64::MAX + 1]` into the range of `i64`, as
/// two's-complement wrapping does.
pub open spec fn wrap_i64(s: int) -> i64 {
    if s > i64::MAX {
        (s - 0x1_0000_0000_0000_0000) as i64
    } else if s < i64::MIN {
        (s + 0x1_0000_0000_0000_0000) as i64
    } else {
        s as i64
    }
}

/// Reduce an integer in `[0, 2 * usize::MAX]` into the range of `usize`, as wrapping does.
pub open spec fn wrap_usize(s: int) -> usize {
    if s > usize::MAX {
        (s - (usize::MAX + 1)) as usize
    } else {
        s as usize
    }
}

/// Wrapping sum of `i64`.
#[derive(Clone, Copy)]
pub struct SumI64;

/// Minimum of `i64`.
#[derive(Clone, Copy)]
pub struct MinI64;

/// Maximum of `i64`.
#[derive(Clone, Copy)]
pub struct MaxI64;

/// Wrapping sum of `usize`.
#[derive(Clone, Copy)]
pub struct SumUsize;

/// Minimum of `usize`.
#[derive(Clone, Copy)]
pub struct MinUsize;

/// Maximum of `usize`.
#[derive(Clone, Copy)]
pub struct MaxUsize;

impl PairOp<i64> for SumI64 {
    open spec fn spec_pair(a: i64, b: i64) -> i64 {
        wrap_i64(a + b)
    }

    proof fn lemma_associative(a: i64, b: i64, c: i64) {
    }

    fn pair(&self, a: i64, b: i64) -> (r: i64) {
        a.wrapping_add(b)
    }
}

impl PairOp<i64> for MinI64 {
    open spec fn spec_pair(a: i64, b: i64) -> i64 {
        if a <= b { a } else { b }
    }

    proof fn lemma_associative(a: i64, b: i64, c: i64) {
    }

    fn pair(&self, a: i64, b: i64) -> (r: i64) {
        if a <= b { a } else { b }
    }
}

impl PairOp<i64> for MaxI64 {
    open spec fn spec_pair(a: i64, b: i64) -> i64 {
        if a >= b { a } else { b }
    }

    proof fn lemma_associative(a: i64, b: i64, c: i64) {
    }

    fn pair(&self, a: i64, b: i64) -> (r: i64) {
        if a >= b { a } else { b }
    }
}

impl PairOp<usize> for SumUsize {
    open spec fn spec_pair(a: usize, b: usize) -> usize {
        wrap_usize(a + b)
    }

    proof fn lemma_associative(a: usize, b: usize, c: usize) {
    }

    fn pair(&self, a: usize, b: usize) -> (r: usize) {
        a.wrapping_add(b)
    }
}

impl PairOp<usize> for MinUsize {
    open spec fn spec_pair(a: usize, b: usize) -> usize {
        if a <= b { a } else { b }
    }

    proof fn lemma_associative(a: usize, b: usize, c: usize) {
    }

    fn pair(&self, a: usize, b: usize) -> (r: usize) {
        if a <= b { a } else { b }
    }
}

impl PairOp<usize> for MaxUsize {
    open spec fn spec_pair(a: usize, b: usize) -> usize {
        if a >= b { a } else { b }
    }

    proof fn lemma_associative(a: usize, b: usize, c: usize) {
    }

    fn pair(&self, a: usize, b: usize) -> (r: usize) {
        if a >= b { a } else { b }
    }
}

impl CommutativePairOp<i64> for SumI64 {
    proof fn lemma_commutative(a: i64, b: i64) {
    }
}

impl CommutativePairOp<i64> for MinI64 {
    proof fn lemma_commutative(a: i64, b: i64) {
    }
}

impl CommutativePairOp<i64> for MaxI64 {
    proof fn lemma_commutative(a: i64, b: i64) {
    }
}

impl CommutativePairOp<usize> for SumUsize {
    proof fn lemma_commutative(a: usize, b: usize) {
    }
}

impl CommutativePairOp<usize> for MinUsize {
    proof fn lemma_commutative(a: usize, b: usize) {
    }
}

impl CommutativePairOp<usize> for MaxUsize {
    proof fn lemma_commutative(a: usize, b: usize) {
    }
}

/// Folding a pointwise combination equals combining the folds, for a commutative operation.
pub proof fn lemma_fold_pointwise<T, Op: CommutativePairOp<T>>(
    a: Seq<T>,
    b: Seq<T>,
    c: Seq<T>,
    lo: int,
    hi: int,
)
    requires
        lo < hi,
        forall|i: int| lo <= i < hi ==> #[trigger] c[i] == Op::spec_pair(a[i], b[i]),
    ensures
        fold::<T, Op>(c, lo, hi) == Op::spec_pair(fold::<T, Op>(a, lo, hi), fold::<T, Op>(b, lo, hi)),
    decreases hi - lo,
{
    if hi - lo > 1 {
        lemma_fold_pointwise::<T, Op>(a, b, c, lo, hi - 1);
        let fa = fold::<T, Op>(a, lo, hi - 1);
        let fb = fold::<T, Op>(b, lo, hi - 1);
        let x = a[hi - 1];
        let y = b[hi - 1];
        // (fa + fb) + (x + y) == (fa + x) + (fb + y)
        Op::lemma_associative(Op::spec_pair(fa, fb), x, y);
        Op::lemma_associative(fa, fb, x);
        Op::lemma_commutative(fb, x);
        Op::lemma_associative(fa, x, fb);
        Op::lemma_associative(Op::spec_pair(fa, x), fb, y);
    }
}

/// `2^k` as an integer.
pub open spec fn pow2k(k: nat) -> int
    decreases k,
{
    if k == 0 {
        1
    } else {
        2 * pow2k((k - 1) as nat)
    }
}

pub proof fn lemma_pow2k_pos(k: nat)
    ensures
        pow2k(k) >= 1,
    decreases k,
{
    if k > 0 {
        lemma_pow2k_pos((k - 1) as nat);
    }
}

/// `i` lies on the path from `p` to the root (node 1) of a heap-indexed tree.
pub open spec fn is_ancestor(i: int, p: int) -> bool
    decreases p,
{
    if p < 1 {
        false
    } else if p == i {
        true
    } else {
        is_ancestor(i, p / 2)
    }
}

/// Every internal node `1 <= i < n` holds the combination of its two children.
pub open spec fn nodes_consistent<T, Op: PairOp<T>>(dat: Seq<T>, n: int) -> bool {
    forall|i: int| 1 <= i < n ==> #[trigger] dat[i] == Op::spec_pair(dat[2 * i], dat[2 * i + 1])
}

/// A node whose depth-`k` descendants are all leaves holds the fold of those leaves.
pub proof fn lemma_node_value<T, Op: PairOp<T>>(dat: Seq<T>, n: int, j: int, k: nat)
    requires
        nodes_consistent::<T, Op>(dat, n),
        dat.len() == 2 * n,
        1 <= j,
        n <= j * pow2k(k),
        (j + 1) * pow2k(k) <= 2 * n,
    ensures
        dat[j] == fold::<T, Op>(dat, j * pow2k(k), (j + 1) * pow2k(k)),
    decreases k,
{
    if k > 0 {
        let q = pow2k((k - 1) as nat);
        lemma_pow2k_pos((k - 1) as nat);
        assert(pow2k(k) == 2 * q);
        assert(j * (2 * q) == (2 * j) * q) by (nonlinear_arith);
        assert((j + 1) * (2 * q) == (2 * j + 2) * q) by (nonlinear_arith);
        assert((2 * j + 1) * q == (2 * j) * q + q) by (nonlinear_arith);
        assert((2 * j + 2) * q == (2 * j) * q + 2 * q) by (nonlinear_arith);
        assert(j < n) by (nonlinear_arith)
            requires
                (j + 1) * (2 * q) <= 2 * n,
                q >= 1,
                j >= 1,
        ;
        lemma_node_value::<T, Op>(dat, n, 2 * j, (k - 1) as nat);
        lemma_node_value::<T, Op>(dat, n, 2 * j + 1, (k - 1) as nat);
        lemma_fold_split::<T, Op>(dat, (2 * j) * q, (2 * j) * q + q, (2 * j) * q + 2 * q);
    }
}

/// A segment tree of `n` leaves stored in `dat[n..2n]`; `dat[i]` for `1 <= i < n`
/// combines `dat[2i]` and `dat[2i + 1]`.
pub struct SegmentTree<T, Op> {
    n: usize,
    dat: Vec<T>,
    pair_op: Op,
}

impl<T: Copy, Op: PairOp<T>> View for SegmentTree<T, Op> {
    type V = Seq<T>;

    closed spec fn view(&self) -> Seq<T> {
        self.dat@.subrange(self.n as int, 2 * self.n as int)
    }
}

impl<T: Copy, Op: PairOp<T>> SegmentTree<T, Op> {
    /// The internal layout invariant.
    pub closed spec fn well_formed(&self) -> bool {
        &&& self.dat.len() == 2 * self.n
        &&& nodes_consistent::<T, Op>(self.dat@, self.n as int)
    }

    /// The fold of the leaves `[lo, hi)` in the abstract view.
    pub open spec fn spec_query(&self, lo: int, hi: int) -> T {
        fold::<T, Op>(self@, lo, hi)
    }

    proof fn lemma_view_fold(&self, lo: int, hi: int)
        requires
            self.well_formed(),
            0 <= lo < hi <= self.n,
        ensures
            fold::<T, Op>(self.dat@, lo + self.n, hi + self.n) == fold::<T, Op>(self@, lo, hi),
    {
        lemma_fold_ext::<T, Op>(self@, self.dat@, lo, hi, self.n as int);
    }

    /// Recompute every internal node from its children, from the bottom up.
    fn build(&mut self)
        requires
            old(self).dat.len() == 2 * old(self).n,
        ensures
            final(self).well_formed(),
            final(self).n == old(self).n,
            final(self)@ == old(self)@,
    {
        let n = self.n;
        let mut i = n;
        while i > 1
            invariant
                self.n == n,
                self.dat.len() == 2 * n,
                1 <= i <= n || (n == 0 && i == 0),
                self@ == old(self)@,
                forall|j: int|
                    i <= j < n ==> #[trigger] self.dat@[j] == Op::spec_pair(
                        self.dat@[2 * j],
                        self.dat@[2 * j + 1],
                    ),
            decreases i,
        {
            i -= 1;
            let l = self.dat[2 * i];
            let r = self.dat[2 * i + 1];
            let v = self.pair_op.pair(l, r);
            self.dat.set(i, v);
            assert(self.dat@.subrange(n as int, 2 * n as int) =~= old(self)@);
        }
    }

    /// A tree of `n` leaves, all equal to `ini_val`.
    pub fn new(n: usize, pair_op: Op, ini_val: T) -> (st: Self)
        requires
            n <= usize::MAX / 2,
        ensures
            st.well_formed(),
            st@ == Seq::new(n as nat, |i: int| ini_val),
    {
        let mut dat: Vec<T> = Vec::new();
        let mut i: usize = 0;
        while i < 2 * n
            invariant
                i <= 2 * n,
                n <= usize::MAX / 2,
                dat@ == Seq::new(i as nat, |j: int| ini_val),
            decreases 2 * n - i,
        {
            dat.push(ini_val);
            i += 1;
        }
        let mut st = SegmentTree { n, dat, pair_op };
        st.build();
        assert(st@ =~= Seq::new(n as nat, |i: int| ini_val));
        st
    }

    /// A tree whose leaves are `ini_values`.
    pub fn from_vec(pair_op: Op, ini_values: Vec<T>) -> (st: Self)
        requires
            ini_values.len() >= 1,
            ini_values.len() <= usize::MAX / 2,
        ensures
            st.well_formed(),
            st@ == ini_values@,
    {
        let n = ini_values.len();
        let mut dat: Vec<T> = Vec::new();
        let mut i: usize = 0;
        while i < n
            invariant
                i <= n,
                n == ini_values.len(),
                dat@ == Seq::new(i as nat, |j: int| ini_values@[0]),
            decreases n - i,
        {
            dat.push(ini_values[0]);
            i += 1;
        }
        let mut i: usize = 0;
        while i < n
            invariant
                i <= n,
                n == ini_values.len(),
                n <= usize::MAX / 2,
                dat.len() == n + i,
                forall|j: int| n <= j < n + i ==> #[trigger] dat@[j] == ini_values@[j - n],
            decreases n - i,
        {
            dat.push(ini_values[i]);
            i += 1;
        }
        let mut st = SegmentTree { n, dat, pair_op };
        st.build();
        assert(st@ =~= ini_values@);
        st
    }

    /// Replace leaf `pos` by `val`.
    pub fn set(&mut self, pos: usize, val: T)
        requires
            old(self).well_formed(),
            pos < old(self)@.len(),
        ensures
            final(self).well_formed(),
            final(self)@ == old(self)@.update(pos as int, val),
    {
        let n = self.n;
        let p = pos + n;
        self.dat.set(p, val);
        let mut par = p / 2;
        assert forall|i: int| 1 <= i < n && !is_ancestor(i, par as int) implies #[trigger] self.dat@[i]
            == Op::spec_pair(self.dat@[2 * i], self.dat@[2 * i + 1]) by {
            assert(old(self).dat@[i] == Op::spec_pair(old(self).dat@[2 * i], old(self).dat@[2 * i + 1]));
        }
        while par >= 1
            invariant
                self.n == n,
                self.dat.len() == 2 * n,
                n <= p < 2 * n,
                par < n,
                self.dat@.subrange(n as int, 2 * n as int) == old(self)@.update(pos as int, val),
                forall|i: int|
                    1 <= i < n && !is_ancestor(i, par as int) ==> #[trigger] self.dat@[i]
                        == Op::spec_pair(self.dat@[2 * i], self.dat@[2 * i + 1]),
            decreases par,
        {
            let l = par * 2;
            let r = l + 1;
            let lv = self.dat[l];
            let rv = self.dat[r];
            let v = self.pair_op.pair(lv, rv);
            let ghost before = self.dat@;
            self.dat.set(par, v);
            assert(self.dat@.subrange(n as int, 2 * n as int) =~= before.subrange(n as int, 2 * n as int));
            assert forall|i: int| 1 <= i < n && !is_ancestor(i, (par / 2) as int) implies #[trigger] self.dat@[i]
                == Op::spec_pair(self.dat@[2 * i], self.dat@[2 * i + 1]) by {
                if i != par {
                    assert(!is_ancestor(i, par as int));
                    assert(2 * i != par && 2 * i + 1 != par);
                }
            }
            par /= 2;
        }
        assert(self@ =~= old(self)@.update(pos as int, val));
    }

    /// The value of leaf `pos`.
    pub fn get(&self, pos: usize) -> (v: T)
        requires
            self.well_formed(),
            pos < self@.len(),
        ensures
            v == self@[pos as int],
    {
        self.dat[pos + self.n]
    }

    /// The fold of the leaves in the closed interval `[a, b]`.
    pub fn query(&self, a: usize, b: usize) -> (v: T)
        requires
            self.well_formed(),
            a <= b < self@.len(),
        ensures
            v == self.spec_query(a as int, b + 1),
    {
        let n = self.n;
        let a0 = a + n;
        let b0 = b + n + 1;
        let mut lo = a0;
        let mut hi = b0;
        let mut aval: Option<T> = None;
        let mut bval: Option<T> = None;
        let ghost mut k: nat = 0;
        let ghost dat = self.dat@;
        while lo < hi
            invariant
                self.well_formed(),
                dat == self.dat@,
                n == self.n,
                n <= a0 < b0 <= 2 * n,
                lo <= hi,
                pow2k(k) >= 1,
                a0 <= lo * pow2k(k),
                lo * pow2k(k) <= hi * pow2k(k),
                hi * pow2k(k) <= b0,
                aval is None <==> lo * pow2k(k) == a0,
                aval matches Some(x) ==> x == fold::<T, Op>(dat, a0 as int, lo * pow2k(k)),
                bval is None <==> hi * pow2k(k) == b0,
                bval matches Some(x) ==> x == fold::<T, Op>(dat, hi * pow2k(k), b0 as int),
            decreases hi - lo,
        {
            let ghost p = pow2k(k);
            if lo % 2 == 1 {
                assert((lo + 1) * p == lo * p + p) by (nonlinear_arith);
                assert(lo * p + p <= hi * p) by (nonlinear_arith)
                    requires
                        lo < hi,
                        p >= 1,
                ;
                assert(lo < 2 * n) by (nonlinear_arith)
                    requires
                        lo < hi,
                        hi * p <= 2 * n,
                        p >= 1,
                ;
                proof {
                    lemma_node_value::<T, Op>(dat, n as int, lo as int, k);
                }
                let node = self.dat[lo];
                aval = match aval {
                    Some(aval0) => {
                        proof {
                            lemma_fold_split::<T, Op>(dat, a0 as int, lo * p, lo * p + p);
                        }
                        Some(self.pair_op.pair(aval0, node))
                    },
                    None => Some(node),
                };
                lo += 1;
            }
            if hi % 2 == 1 {
                assert(hi <= 2 * n) by (nonlinear_arith)
                    requires
                        hi * p <= 2 * n,
                        p >= 1,
                ;
                hi -= 1;
                assert((hi + 1) * p == hi * p + p) by (nonlinear_arith);
                assert(lo * p <= hi * p) by (nonlinear_arith)
                    requires
                        lo <= hi,
                        p >= 1,
                ;
                assert(hi >= 1) by (nonlinear_arith)
                    requires
                        hi * p >= n,
                        n >= 1,
                        p >= 1,
                ;
                proof {
                    lemma_node_value::<T, Op>(dat, n as int, hi as int, k);
                }
                let node = self.dat[hi];
                bval = match bval {
                    Some(bval0) => {
                        proof {
                            lemma_fold_split::<T, Op>(dat, hi * p, hi * p + p, b0 as int);
                        }
                        Some(self.pair_op.pair(node, bval0))
                    },
                    None => Some(node),
                };
            }
            assert(lo * p <= hi * p);
            assert(lo <= hi) by (nonlinear_arith)
                requires
                    lo * p <= hi * p,
                    p >= 1,
            ;
            assert((lo / 2) * (2 * p) == lo * p) by (nonlinear_arith)
                requires
                    lo % 2 == 0,
            ;
            assert((hi / 2) * (2 * p) == hi * p) by (nonlinear_arith)
                requires
                    hi % 2 == 0,
            ;
            lo /= 2;
            hi /= 2;
            proof {
                k = k + 1;
            }
        }
        proof {
            self.lemma_view_fold(a as int, b + 1);
        }
        match aval {
            Some(av) => match bval {
                Some(bv) => {
                    proof {
                        lemma_fold_split::<T, Op>(dat, a0 as int, lo * pow2k(k), b0 as int);
                    }
                    self.pair_op.pair(av, bv)
                },
                None => av,
            },
            None => bval.unwrap(),
        }
    }
}

impl<Op: PairOp<i64>> SegmentTree<i64, Op> {
    /// Add `add_val` to leaf `pos`.
    pub fn add(&mut self, pos: usize, add_val: i64)
        requires
            old(self).well_formed(),
            pos < old(self)@.len(),
            i64::MIN <= old(self)@[pos as int] + add_val <= i64::MAX,
        ensures
            final(self).well_formed(),
            final(self)@ == old(self)@.update(pos as int, (old(self)@[pos as int] + add_val) as i64),
    {
        let v = self.get(pos);
        self.set(pos, v + add_val);
    }

    /// Subtract `sub_val` from leaf `pos`.
    pub fn sub(&mut self, pos: usize, sub_val: i64)
        requires
            old(self).well_formed(),
            pos < old(self)@.len(),
            i64::MIN <= old(self)@[pos as int] - sub_val <= i64::MAX,
        ensures
            final(self).well_formed(),
            final(self)@ == old(self)@.update(pos as int, (old(self)@[pos as int] - sub_val) as i64),
    {
        let v = self.get(pos);
        self.set(pos, v - sub_val);
    }
}

impl<Op: PairOp<usize>> SegmentTree<usize, Op> {
    /// Add `add_val` to leaf `pos`.
    pub fn add(&mut self, pos: usize, add_val: usize)
        requires
            old(self).well_formed(),
            pos < old(self)@.len(),
            old(self)@[pos as int] + add_val <= usize::MAX,
        ensures
            final(self).well_formed(),
            final(self)@ == old(self)@.update(pos as int, (old(self)@[pos as int] + add_val) as usize),
    {
        let v = self.get(pos);
        self.set(pos, v + add_val);
    }

    /// Subtract `sub_val` from leaf `pos`.
    pub fn sub(&mut self, pos: usize, sub_val: usize)
        requires
            old(self).well_formed(),
            pos < old(self)@.len(),
            old(self)@[pos as int] >= sub_val,
        ensures
            final(self).well_formed(),
            final(self)@ == old(self)@.update(pos as int, (old(self)@[pos as int] - sub_val) as usize),
    {
        let v = self.get(pos);
        self.set(pos, v - sub_val);
    }
}

} // verus!
