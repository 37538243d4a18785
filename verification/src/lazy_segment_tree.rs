//! Range-update / range-fold segment tree with lazy propagation.
use vstd::prelude::*;
use crate::segment_tree::{PairOp, fold, lemma_fold_split, lemma_fold_ext, pow2k, lemma_pow2k_pos};

verus! {

/// The three operations a lazy segment tree works with: `pair` folds node values,
/// `update` applies a pending update to a value, `concat` merges two pending updates
/// (the first one older).
pub trait LazyOps<X, M>: PairOp<X> {
    spec fn spec_update(x: X, m: M) -> X;

    spec fn spec_concat(m1: M, m2: M) -> M;

    /// Applying an update to a combined value is combining the updated values.
    proof fn lemma_update_distributes(a: X, b: X, m: M)
        ensures
            Self::spec_update(Self::spec_pair(a, b), m) == Self::spec_pair(
                Self::spec_update(a, m),
                Self::spec_update(b, m),
            ),
    ;

    /// Applying two updates in turn is applying their concatenation.
    proof fn lemma_update_concat(x: X, m1: M, m2: M)
        ensures
            Self::spec_update(Self::spec_update(x, m1), m2) == Self::spec_update(
                x,
                Self::spec_concat(m1, m2),
            ),
    ;

    fn update(&self, x: X, m: M) -> (r: X)
        ensures
            r == Self::spec_update(x, m),
    ;

    fn concat(&self, m1: M, m2: M) -> (r: M)
        ensures
            r == Self::spec_concat(m1, m2),
    ;
}

/// Range minimum with range assignment, over `i64`.
#[derive(Clone, Copy)]
pub struct MinAssignI64;

/// Range maximum with range assignment, over `i64`.
#[derive(Clone, Copy)]
pub struct MaxAssignI64;

/// Range sum with range addition, over `u64` with wrapping arithmetic.  A node value is
/// `(sum, number of leaves)`, so that an addition can be applied to a whole node.
#[derive(Clone, Copy)]
pub struct SumAddU64;

impl PairOp<i64> for MinAssignI64 {
    open spec fn spec_pair(a: i64, b: i64) -> i64 {
        if a <= b { a } else { b }
    }

    proof fn lemma_associative(a: i64, b: i64, c: i64) {
    }

    fn pair(&self, a: i64, b: i64) -> (r: i64) {
        if a <= b { a } else { b }
    }
}

impl LazyOps<i64, i64> for MinAssignI64 {
    open spec fn spec_update(x: i64, m: i64) -> i64 {
        m
    }

    open spec fn spec_concat(m1: i64, m2: i64) -> i64 {
        m2
    }

    proof fn lemma_update_distributes(a: i64, b: i64, m: i64) {
    }

    proof fn lemma_update_concat(x: i64, m1: i64, m2: i64) {
    }

    fn update(&self, x: i64, m: i64) -> (r: i64) {
        m
    }

    fn concat(&self, m1: i64, m2: i64) -> (r: i64) {
        m2
    }
}

impl PairOp<i64> for MaxAssignI64 {
    open spec fn spec_pair(a: i64, b: i64) -> i64 {
        if a >= b { a } else { b }
    }

    proof fn lemma_associative(a: i64, b: i64, c: i64) {
    }

    fn pair(&self, a: i64, b: i64) -> (r: i64) {
        if a >= b { a } else { b }
    }
}

impl LazyOps<i64, i64> for MaxAssignI64 {
    open spec fn spec_update(x: i64, m: i64) -> i64 {
        m
    }

    open spec fn spec_concat(m1: i64, m2: i64) -> i64 {
        m2
    }

    proof fn lemma_update_distributes(a: i64, b: i64, m: i64) {
    }

    proof fn lemma_update_concat(x: i64, m1: i64, m2: i64) {
    }

    fn update(&self, x: i64, m: i64) -> (r: i64) {
        m
    }

    fn concat(&self, m1: i64, m2: i64) -> (r: i64) {
        m2
    }
}

/// `2^64`.
pub open spec fn word() -> int {
    0x1_0000_0000_0000_0000
}

proof fn lemma_wrapping_add_u64(x: u64, y: u64)
    ensures
        vstd::wrapping::u64_specs::wrapping_add(x, y) == (x + y) % word(),
{
    if x + y > u64::MAX {
        assert((x + y) % word() == x + y - word()) by {
            vstd::arithmetic::div_mod::lemma_fundamental_div_mod_converse(
                x + y,
                word(),
                1,
                x + y - word(),
            );
        }
    } else {
        vstd::arithmetic::div_mod::lemma_small_mod((x + y) as nat, word() as nat);
    }
}

proof fn lemma_sum_add_concat(x0: int, l: int, m1: int, m2: int)
    ensures
        ((x0 + m1 * l) % word() + m2 * l) % word() == (x0 + ((m1 + m2) % word()) * l) % word(),
{
    let w = word();
    let a = x0 + m1 * l;
    let c = (m1 + m2) % w;
    assert((m1 + m2) * l == m1 * l + m2 * l) by (nonlinear_arith);
    assert((m2 * l + a % w) % w == (m2 * l + a) % w) by {
        vstd::arithmetic::div_mod::lemma_add_mod_noop_right(m2 * l, a, w);
    }
    assert((x0 + (c * l) % w) % w == (x0 + c * l) % w) by {
        vstd::arithmetic::div_mod::lemma_add_mod_noop_right(x0, c * l, w);
    }
    assert((c * l) % w == ((m1 + m2) * l) % w) by {
        vstd::arithmetic::div_mod::lemma_mul_mod_noop_left(m1 + m2, l, w);
    }
    assert((x0 + ((m1 + m2) * l) % w) % w == (x0 + (m1 + m2) * l) % w) by {
        vstd::arithmetic::div_mod::lemma_add_mod_noop_right(x0, (m1 + m2) * l, w);
    }
}

impl PairOp<(u64, u64)> for SumAddU64 {
    open spec fn spec_pair(a: (u64, u64), b: (u64, u64)) -> (u64, u64) {
        (((a.0 + b.0) % word()) as u64, ((a.1 + b.1) % word()) as u64)
    }

    proof fn lemma_associative(a: (u64, u64), b: (u64, u64), c: (u64, u64)) {
        broadcast use vstd::arithmetic::div_mod::lemma_add_mod_noop;
        broadcast use vstd::arithmetic::div_mod::lemma_mod_twice;

        vstd::arithmetic::div_mod::lemma_add_mod_noop_right(a.0 as int, b.0 + c.0, word());
        vstd::arithmetic::div_mod::lemma_add_mod_noop(a.0 + b.0, c.0 as int, word());
        vstd::arithmetic::div_mod::lemma_mod_twice(c.0 as int, word());
        vstd::arithmetic::div_mod::lemma_add_mod_noop_right(a.1 as int, b.1 + c.1, word());
        vstd::arithmetic::div_mod::lemma_add_mod_noop(a.1 + b.1, c.1 as int, word());
        vstd::arithmetic::div_mod::lemma_mod_twice(c.1 as int, word());
    }

    fn pair(&self, a: (u64, u64), b: (u64, u64)) -> (r: (u64, u64)) {
        proof {
            lemma_wrapping_add_u64(a.0, b.0);
            lemma_wrapping_add_u64(a.1, b.1);
        }
        (a.0.wrapping_add(b.0), a.1.wrapping_add(b.1))
    }
}

impl LazyOps<(u64, u64), u64> for SumAddU64 {
    open spec fn spec_update(x: (u64, u64), m: u64) -> (u64, u64) {
        (((x.0 + m * x.1) % word()) as u64, x.1)
    }

    open spec fn spec_concat(m1: u64, m2: u64) -> u64 {
        ((m1 + m2) % word()) as u64
    }

    proof fn lemma_update_distributes(a: (u64, u64), b: (u64, u64), m: u64) {
        let w = word();
        let l = (a.1 + b.1) % w;
        let s = (a.0 + b.0) % w;
        // lhs: (s + m * l) % w, rhs: ((a0 + m a1) % w + (b0 + m b1) % w) % w
        vstd::arithmetic::div_mod::lemma_mul_mod_noop_right(m as int, a.1 + b.1, w);
        vstd::arithmetic::div_mod::lemma_add_mod_noop(s, m * l, w);
        vstd::arithmetic::div_mod::lemma_add_mod_noop(a.0 + b.0, m * (a.1 + b.1), w);
        vstd::arithmetic::div_mod::lemma_mod_twice(a.0 + b.0, w);
        vstd::arithmetic::div_mod::lemma_add_mod_noop(a.0 + m * a.1, b.0 + m * b.1, w);
        assert(m * (a.1 + b.1) == m * a.1 + m * b.1) by (nonlinear_arith);
        assert((a.0 + b.0) + (m * a.1 + m * b.1) == (a.0 + m * a.1) + (b.0 + m * b.1));
    }

    proof fn lemma_update_concat(x: (u64, u64), m1: u64, m2: u64) {
        lemma_sum_add_concat(x.0 as int, x.1 as int, m1 as int, m2 as int);
    }

    fn update(&self, x: (u64, u64), m: u64) -> (r: (u64, u64)) {
        proof {
            let p = m.wrapping_mul(x.1);
            lemma_wrapping_add_u64(x.0, p);
            vstd::arithmetic::div_mod::lemma_add_mod_noop_right(x.0 as int, m * x.1, word());
        }
        (x.0.wrapping_add(m.wrapping_mul(x.1)), x.1)
    }

    fn concat(&self, m1: u64, m2: u64) -> (r: u64) {
        proof {
            lemma_wrapping_add_u64(m1, m2);
        }
        m1.wrapping_add(m2)
    }
}

/// The value `x` with the pending update `lz` applied.
pub open spec fn apply_opt<X, M, Op: LazyOps<X, M>>(x: X, lz: Option<M>) -> X {
    match lz {
        Some(m) => Op::spec_update(x, m),
        None => x,
    }
}

/// `j` is `k` or a descendant of `k` in a tree with children `2k + 1` and `2k + 2`.
pub open spec fn in_sub(j: int, k: int) -> bool
    decreases j,
{
    if j < 0 || k < 0 || j < k {
        false
    } else if j == k {
        true
    } else {
        in_sub((j - 1) / 2, k)
    }
}

proof fn lemma_in_sub_child(j: int, k: int, c: int)
    requires
        k >= 0,
        c == 2 * k + 1 || c == 2 * k + 2,
        in_sub(j, c),
    ensures
        in_sub(j, k),
        j != k,
    decreases j,
{
    if j != c {
        assert(in_sub((j - 1) / 2, c));
        lemma_in_sub_child((j - 1) / 2, k, c);
        assert(in_sub(j, k));
    } else {
        assert((j - 1) / 2 == k);
        assert(in_sub(k, k));
        assert(in_sub(j, k));
    }
}

proof fn lemma_in_sub_disjoint(j: int, k: int)
    requires
        k >= 0,
    ensures
        !(in_sub(j, 2 * k + 1) && in_sub(j, 2 * k + 2)),
    decreases j,
{
    if j > 2 * k + 2 {
        lemma_in_sub_disjoint((j - 1) / 2, k);
    } else if j == 2 * k + 2 {
        assert((j - 1) / 2 == k);
        assert(!in_sub(k, 2 * k + 1));
        assert(!in_sub(j, 2 * k + 1));
    }
}

/// Node `k`'s value with its own pending update applied.
pub open spec fn eff<X, M, Op: LazyOps<X, M>>(dat: Seq<X>, lz: Seq<Option<M>>, k: int) -> X {
    apply_opt::<X, M, Op>(dat[k], lz[k])
}

/// Every internal node of the height-`d` subtree at `k` holds the combination of its
/// children's values (pending updates of the children applied).
pub open spec fn tree_ok<X, M, Op: LazyOps<X, M>>(
    dat: Seq<X>,
    lz: Seq<Option<M>>,
    k: int,
    d: nat,
) -> bool
    decreases d,
{
    d == 0 || {
        &&& dat[k] == Op::spec_pair(eff::<X, M, Op>(dat, lz, 2 * k + 1), eff::<X, M, Op>(dat, lz, 2 * k + 2))
        &&& tree_ok::<X, M, Op>(dat, lz, 2 * k + 1, (d - 1) as nat)
        &&& tree_ok::<X, M, Op>(dat, lz, 2 * k + 2, (d - 1) as nat)
    }
}

/// The leaf values of the height-`d` subtree at `k`, with every pending update inside
/// the subtree applied.
pub open spec fn leaves<X, M, Op: LazyOps<X, M>>(
    dat: Seq<X>,
    lz: Seq<Option<M>>,
    k: int,
    d: nat,
) -> Seq<X>
    decreases d,
{
    if d == 0 {
        seq![eff::<X, M, Op>(dat, lz, k)]
    } else {
        (leaves::<X, M, Op>(dat, lz, 2 * k + 1, (d - 1) as nat) + leaves::<X, M, Op>(
            dat,
            lz,
            2 * k + 2,
            (d - 1) as nat,
        )).map_values(|x: X| apply_opt::<X, M, Op>(x, lz[k]))
    }
}

proof fn lemma_leaves_len<X, M, Op: LazyOps<X, M>>(dat: Seq<X>, lz: Seq<Option<M>>, k: int, d: nat)
    ensures
        leaves::<X, M, Op>(dat, lz, k, d).len() == pow2k(d),
    decreases d,
{
    if d > 0 {
        lemma_leaves_len::<X, M, Op>(dat, lz, 2 * k + 1, (d - 1) as nat);
        lemma_leaves_len::<X, M, Op>(dat, lz, 2 * k + 2, (d - 1) as nat);
    }
}

proof fn lemma_apply_distributes<X, M, Op: LazyOps<X, M>>(a: X, b: X, lz: Option<M>)
    ensures
        apply_opt::<X, M, Op>(Op::spec_pair(a, b), lz) == Op::spec_pair(
            apply_opt::<X, M, Op>(a, lz),
            apply_opt::<X, M, Op>(b, lz),
        ),
{
    if let Some(m) = lz {
        Op::lemma_update_distributes(a, b, m);
    }
}

/// Folding updated values is updating the fold.
proof fn lemma_fold_map<X, M, Op: LazyOps<X, M>>(s: Seq<X>, lz: Option<M>, lo: int, hi: int)
    requires
        0 <= lo < hi <= s.len(),
    ensures
        fold::<X, Op>(s.map_values(|x: X| apply_opt::<X, M, Op>(x, lz)), lo, hi) == apply_opt::<X, M, Op>(
            fold::<X, Op>(s, lo, hi),
            lz,
        ),
    decreases hi - lo,
{
    if hi - lo > 1 {
        lemma_fold_map::<X, M, Op>(s, lz, lo, hi - 1);
        lemma_apply_distributes::<X, M, Op>(fold::<X, Op>(s, lo, hi - 1), s[hi - 1], lz);
    }
}

/// A consistent subtree's leaves fold to the node's value.
proof fn lemma_fold_leaves<X, M, Op: LazyOps<X, M>>(dat: Seq<X>, lz: Seq<Option<M>>, k: int, d: nat)
    requires
        tree_ok::<X, M, Op>(dat, lz, k, d),
    ensures
        fold::<X, Op>(leaves::<X, M, Op>(dat, lz, k, d), 0, pow2k(d)) == eff::<X, M, Op>(dat, lz, k),
    decreases d,
{
    if d > 0 {
        let h = (d - 1) as nat;
        let l1 = leaves::<X, M, Op>(dat, lz, 2 * k + 1, h);
        let l2 = leaves::<X, M, Op>(dat, lz, 2 * k + 2, h);
        let q = pow2k(h);
        lemma_pow2k_pos(h);
        lemma_leaves_len::<X, M, Op>(dat, lz, 2 * k + 1, h);
        lemma_leaves_len::<X, M, Op>(dat, lz, 2 * k + 2, h);
        lemma_fold_leaves::<X, M, Op>(dat, lz, 2 * k + 1, h);
        lemma_fold_leaves::<X, M, Op>(dat, lz, 2 * k + 2, h);
        let s = l1 + l2;
        lemma_fold_split::<X, Op>(s, 0, q, 2 * q);
        lemma_fold_ext::<X, Op>(l1, s, 0, q, 0);
        lemma_fold_ext::<X, Op>(l2, s, 0, q, q);
        lemma_fold_map::<X, M, Op>(s, lz[k], 0, 2 * q);
        lemma_apply_distributes::<X, M, Op>(
            eff::<X, M, Op>(dat, lz, 2 * k + 1),
            eff::<X, M, Op>(dat, lz, 2 * k + 2),
            lz[k],
        );
    }
}

/// Node `node` roots the height-`d` subtree that covers the leaves `[l, l + 2^d)` of a tree
/// with `n2` leaves.
pub open spec fn pos_ok(node: int, l: int, d: nat, n2: int) -> bool {
    &&& node >= 0
    &&& l >= 0
    &&& (node + 1) * pow2k(d) == n2 + l
    &&& l + pow2k(d) <= n2
}

proof fn lemma_pos_children(node: int, l: int, d: nat, n2: int)
    requires
        pos_ok(node, l, d, n2),
        d >= 1,
    ensures
        pos_ok(2 * node + 1, l, (d - 1) as nat, n2),
        pos_ok(2 * node + 2, l + pow2k((d - 1) as nat), (d - 1) as nat, n2),
        node + 1 < n2,
        2 * node + 2 < 2 * n2 - 1,
        pow2k(d) == 2 * pow2k((d - 1) as nat),
{
    let q = pow2k((d - 1) as nat);
    lemma_pow2k_pos((d - 1) as nat);
    assert(pow2k(d) == 2 * q);
    assert((node + 1) * (2 * q) == (2 * node + 2) * q) by (nonlinear_arith);
    assert((2 * node + 3) * q == (2 * node + 2) * q + q) by (nonlinear_arith);
    assert((node + 1) * (2 * q) >= 2 * (node + 1)) by (nonlinear_arith)
        requires
            q >= 1,
            node >= 0,
    ;
}

proof fn lemma_pos_leaf(node: int, l: int, n2: int)
    requires
        pos_ok(node, l, 0, n2),
    ensures
        node == n2 - 1 + l,
        l < n2,
{
    assert(pow2k(0) == 1);
}

proof fn lemma_pos_bound(node: int, l: int, d: nat, n2: int)
    requires
        pos_ok(node, l, d, n2),
    ensures
        node < 2 * n2 - 1,
{
    lemma_pow2k_pos(d);
    assert((node + 1) * pow2k(d) >= node + 1) by (nonlinear_arith)
        requires
            pow2k(d) >= 1,
            node >= 0,
    ;
}

/// The entries outside the subtree of `k` agree.
pub open spec fn same_outside<X, M>(
    d1: Seq<X>,
    l1: Seq<Option<M>>,
    d2: Seq<X>,
    l2: Seq<Option<M>>,
    k: int,
) -> bool {
    &&& d1.len() == d2.len()
    &&& l1.len() == l2.len()
    &&& forall|j: int| 0 <= j < d1.len() && !#[trigger] in_sub(j, k) ==> d1[j] == d2[j]
    &&& forall|j: int| 0 <= j < l1.len() && !#[trigger] in_sub(j, k) ==> l1[j] == l2[j]
}

/// The subtree functions only read the subtree's own entries.
proof fn lemma_frame<X, M, Op: LazyOps<X, M>>(
    d1: Seq<X>,
    l1: Seq<Option<M>>,
    d2: Seq<X>,
    l2: Seq<Option<M>>,
    k: int,
    l: int,
    d: nat,
    n2: int,
)
    requires
        pos_ok(k, l, d, n2),
        d1[k] == d2[k],
        forall|j: int|
            #[trigger] in_sub(j, k) && j != k && j < 2 * n2 - 1 ==> d1[j] == d2[j] && l1[j] == l2[j],
    ensures
        tree_ok::<X, M, Op>(d1, l1, k, d) == tree_ok::<X, M, Op>(d2, l2, k, d),
        l1[k] == l2[k] ==> leaves::<X, M, Op>(d1, l1, k, d) == leaves::<X, M, Op>(d2, l2, k, d),
    decreases d,
{
    if d > 0 {
        let h = (d - 1) as nat;
        lemma_pos_children(k, l, d, n2);
        let c1 = 2 * k + 1;
        let c2 = 2 * k + 2;
        lemma_in_sub_child(c1, k, c1);
        lemma_in_sub_child(c2, k, c2);
        assert forall|j: int| #[trigger] in_sub(j, c1) && j != c1 && j < 2 * n2 - 1 implies d1[j] == d2[j]
            && l1[j] == l2[j] by {
            lemma_in_sub_child(j, k, c1);
        }
        assert forall|j: int| #[trigger] in_sub(j, c2) && j != c2 && j < 2 * n2 - 1 implies d1[j] == d2[j]
            && l1[j] == l2[j] by {
            lemma_in_sub_child(j, k, c2);
        }
        lemma_frame::<X, M, Op>(d1, l1, d2, l2, c1, l, h, n2);
        lemma_frame::<X, M, Op>(d1, l1, d2, l2, c2, l + pow2k(h), h, n2);
        if l1[k] == l2[k] {
            assert(leaves::<X, M, Op>(d1, l1, k, d) =~= leaves::<X, M, Op>(d2, l2, k, d));
        }
    }
}

/// With no pending update anywhere, the leaves are the raw leaf entries.
proof fn lemma_raw_leaves<X, M, Op: LazyOps<X, M>>(
    dat: Seq<X>,
    lz: Seq<Option<M>>,
    k: int,
    l: int,
    d: nat,
    n2: int,
)
    requires
        pos_ok(k, l, d, n2),
        forall|j: int| 0 <= j < 2 * n2 - 1 ==> #[trigger] lz[j] is None,
    ensures
        leaves::<X, M, Op>(dat, lz, k, d) == Seq::new(pow2k(d) as nat, |i: int| dat[n2 - 1 + l + i]),
    decreases d,
{
    lemma_pos_bound(k, l, d, n2);
    assert(lz[k] is None);
    if d == 0 {
        lemma_pos_leaf(k, l, n2);
        assert(leaves::<X, M, Op>(dat, lz, k, d) =~= Seq::new(pow2k(d) as nat, |i: int| dat[n2 - 1 + l + i]));
    } else {
        let h = (d - 1) as nat;
        lemma_pos_children(k, l, d, n2);
        lemma_raw_leaves::<X, M, Op>(dat, lz, 2 * k + 1, l, h, n2);
        lemma_raw_leaves::<X, M, Op>(dat, lz, 2 * k + 2, l + pow2k(h), h, n2);
        let q = pow2k(h);
        let a = leaves::<X, M, Op>(dat, lz, 2 * k + 1, h);
        let b = leaves::<X, M, Op>(dat, lz, 2 * k + 2, h);
        let s = a + b;
        let t = leaves::<X, M, Op>(dat, lz, k, d);
        assert(t == s.map_values(|x: X| apply_opt::<X, M, Op>(x, lz[k])));
        lemma_leaves_len::<X, M, Op>(dat, lz, k, d);
        assert forall|i: int| 0 <= i < pow2k(d) implies t[i] == dat[n2 - 1 + l + i] by {
            if i < q {
                assert(s[i] == a[i]);
            } else {
                assert(s[i] == b[i - q]);
            }
        }
        assert(t =~= Seq::new(pow2k(d) as nat, |i: int| dat[n2 - 1 + l + i]));
    }
}

/// With no pending update anywhere and every internal node combining its children,
/// every subtree is consistent.
proof fn lemma_build_ok<X, M, Op: LazyOps<X, M>>(
    dat: Seq<X>,
    lz: Seq<Option<M>>,
    k: int,
    l: int,
    d: nat,
    n2: int,
)
    requires
        pos_ok(k, l, d, n2),
        forall|j: int| 0 <= j < 2 * n2 - 1 ==> #[trigger] lz[j] is None,
        forall|j: int| 0 <= j < n2 - 1 ==> #[trigger] dat[j] == Op::spec_pair(dat[2 * j + 1], dat[2 * j + 2]),
    ensures
        tree_ok::<X, M, Op>(dat, lz, k, d),
    decreases d,
{
    if d > 0 {
        let h = (d - 1) as nat;
        lemma_pos_children(k, l, d, n2);
        assert(lz[2 * k + 1] is None);
        assert(lz[2 * k + 2] is None);
        assert(dat[k] == Op::spec_pair(dat[2 * k + 1], dat[2 * k + 2]));
        lemma_build_ok::<X, M, Op>(dat, lz, 2 * k + 1, l, h, n2);
        lemma_build_ok::<X, M, Op>(dat, lz, 2 * k + 2, l + pow2k(h), h, n2);
    }
}

/// The pending update of a node after `m` has been pushed onto it.
pub open spec fn push_opt<X, M, Op: LazyOps<X, M>>(lz: Option<M>, m: M) -> Option<M> {
    match lz {
        Some(v) => Some(Op::spec_concat(v, m)),
        None => Some(m),
    }
}

proof fn lemma_apply_push<X, M, Op: LazyOps<X, M>>(x: X, lz: Option<M>, m: M)
    ensures
        apply_opt::<X, M, Op>(x, push_opt::<X, M, Op>(lz, m)) == Op::spec_update(apply_opt::<X, M, Op>(x, lz), m),
{
    if let Some(v) = lz {
        Op::lemma_update_concat(x, v, m);
    }
}

/// Pushing `m` onto the root of a subtree updates each of its leaves by `m`.
proof fn lemma_leaves_after_push<X, M, Op: LazyOps<X, M>>(
    dat: Seq<X>,
    lz: Seq<Option<M>>,
    c: int,
    l: int,
    d: nat,
    n2: int,
    m: M,
)
    requires
        pos_ok(c, l, d, n2),
        c < lz.len(),
        lz.len() >= 2 * n2 - 1,
    ensures
        leaves::<X, M, Op>(dat, lz.update(c, push_opt::<X, M, Op>(lz[c], m)), c, d)
            == leaves::<X, M, Op>(dat, lz, c, d).map_values(|x: X| Op::spec_update(x, m)),
{
    let lz2 = lz.update(c, push_opt::<X, M, Op>(lz[c], m));
    let t2 = leaves::<X, M, Op>(dat, lz2, c, d);
    let t = leaves::<X, M, Op>(dat, lz, c, d);
    lemma_leaves_len::<X, M, Op>(dat, lz, c, d);
    lemma_leaves_len::<X, M, Op>(dat, lz2, c, d);
    if d == 0 {
        lemma_apply_push::<X, M, Op>(dat[c], lz[c], m);
        assert(t2 =~= t.map_values(|x: X| Op::spec_update(x, m)));
    } else {
        let h = (d - 1) as nat;
        lemma_pos_children(c, l, d, n2);
        let g1 = 2 * c + 1;
        let g2 = 2 * c + 2;
        assert forall|j: int| #[trigger] in_sub(j, g1) && j != g1 && j < 2 * n2 - 1 implies dat[j] == dat[j]
            && lz[j] == lz2[j] by {
            lemma_in_sub_child(j, c, g1);
        }
        assert forall|j: int| #[trigger] in_sub(j, g2) && j != g2 && j < 2 * n2 - 1 implies dat[j] == dat[j]
            && lz[j] == lz2[j] by {
            lemma_in_sub_child(j, c, g2);
        }
        lemma_frame::<X, M, Op>(dat, lz, dat, lz2, g1, l, h, n2);
        lemma_frame::<X, M, Op>(dat, lz, dat, lz2, g2, l + pow2k(h), h, n2);
        let s = leaves::<X, M, Op>(dat, lz, g1, h) + leaves::<X, M, Op>(dat, lz, g2, h);
        assert forall|i: int| 0 <= i < t.len() implies t2[i] == Op::spec_update(t[i], m) by {
            lemma_apply_push::<X, M, Op>(s[i], lz[c], m);
        }
        assert(t2 =~= t.map_values(|x: X| Op::spec_update(x, m)));
    }
}

/// A node without a pending update has the leaves of its two children.
proof fn lemma_leaves_split<X, M, Op: LazyOps<X, M>>(
    dat: Seq<X>,
    lz: Seq<Option<M>>,
    k: int,
    d: nat,
)
    requires
        d >= 1,
        lz[k] is None,
    ensures
        leaves::<X, M, Op>(dat, lz, k, d) == leaves::<X, M, Op>(dat, lz, 2 * k + 1, (d - 1) as nat)
            + leaves::<X, M, Op>(dat, lz, 2 * k + 2, (d - 1) as nat),
{
    let s = leaves::<X, M, Op>(dat, lz, 2 * k + 1, (d - 1) as nat) + leaves::<X, M, Op>(dat, lz, 2 * k + 2, (d - 1) as nat);
    assert(leaves::<X, M, Op>(dat, lz, k, d) =~= s);
}

/// Entries unchanged outside the subtree of a child are unchanged outside the subtree of
/// its parent, and the sibling's subtree is unchanged.
proof fn lemma_child_frame<X, M, Op: LazyOps<X, M>>(
    d1: Seq<X>,
    l1: Seq<Option<M>>,
    d2: Seq<X>,
    l2: Seq<Option<M>>,
    k: int,
    c: int,
    sib: int,
    l_sib: int,
    h: nat,
    n2: int,
)
    requires
        k >= 0,
        (c == 2 * k + 1 && sib == 2 * k + 2) || (c == 2 * k + 2 && sib == 2 * k + 1),
        same_outside(d1, l1, d2, l2, c),
        pos_ok(sib, l_sib, h, n2),
        d1.len() >= 2 * n2 - 1,
        l1.len() == d1.len(),
    ensures
        forall|j: int| 0 <= j < d1.len() && !#[trigger] in_sub(j, k) ==> d1[j] == d2[j] && l1[j] == l2[j],
        d1[k] == d2[k] && l1[k] == l2[k],
        tree_ok::<X, M, Op>(d1, l1, sib, h) == tree_ok::<X, M, Op>(d2, l2, sib, h),
        leaves::<X, M, Op>(d1, l1, sib, h) == leaves::<X, M, Op>(d2, l2, sib, h),
        d1[sib] == d2[sib] && l1[sib] == l2[sib],
{
    assert forall|j: int| 0 <= j < d1.len() && !#[trigger] in_sub(j, k) implies d1[j] == d2[j] && l1[j] == l2[j] by {
        if in_sub(j, c) {
            lemma_in_sub_child(j, k, c);
        }
    }
    assert(!in_sub(k, c));
    lemma_pos_bound(sib, l_sib, h, n2);
    lemma_in_sub_child(sib, k, sib);
    lemma_in_sub_disjoint(sib, k);
    assert forall|j: int| #[trigger] in_sub(j, sib) && j != sib && j < 2 * n2 - 1 implies d1[j] == d2[j]
        && l1[j] == l2[j] by {
        lemma_in_sub_disjoint(j, k);
    }
    lemma_frame::<X, M, Op>(d1, l1, d2, l2, sib, l_sib, h, n2);
}

/// `s` (whose first entry is leaf `off`) with `m` applied to the leaves in `[a, b)`.
pub open spec fn range_update<X, M, Op: LazyOps<X, M>>(s: Seq<X>, off: int, a: int, b: int, m: M) -> Seq<X> {
    Seq::new(s.len(), |i: int| if a <= off + i < b { Op::spec_update(s[i], m) } else { s[i] })
}

/// Fields other than the two node arrays, and the array lengths.
pub struct LazySegmentTree<X, M, Op> {
    n2: usize,
    ops: Op,
    dat: Vec<X>,
    lazy_ops: Vec<Option<M>>,
    built: bool,
    height: Ghost<nat>,
}

impl<X: Copy, M: Copy, Op: LazyOps<X, M>> View for LazySegmentTree<X, M, Op> {
    type V = Seq<X>;

    /// The leaf values with every pending update applied.
    closed spec fn view(&self) -> Seq<X> {
        leaves::<X, M, Op>(self.dat@, self.lazy_ops@, 0, self.height@)
    }
}

impl<X: Copy, M: Copy, Op: LazyOps<X, M>> LazySegmentTree<X, M, Op> {
    /// The number of leaves: a power of two.
    pub closed spec fn leaf_count(&self) -> nat {
        self.n2 as nat
    }

    /// Whether the internal nodes have been computed (done by the first query or reservation).
    pub closed spec fn is_built(&self) -> bool {
        self.built
    }

    spec fn core_ok(&self) -> bool {
        &&& self.n2 == pow2k(self.height@)
        &&& self.dat.len() == self.lazy_ops.len()
        &&& self.dat.len() >= 2 * self.n2 - 1
        &&& 2 * self.n2 <= usize::MAX
    }

    spec fn core_same(&self, other: &Self) -> bool {
        &&& self.n2 == other.n2
        &&& self.height == other.height
        &&& self.built == other.built
    }

    /// The view has one value per leaf.
    pub proof fn lemma_view_len(&self)
        requires
            self.well_formed(),
        ensures
            self@.len() == self.leaf_count(),
    {
        lemma_leaves_len::<X, M, Op>(self.dat@, self.lazy_ops@, 0, self.height@);
    }

    /// The internal invariant.
    pub closed spec fn well_formed(&self) -> bool {
        &&& self.core_ok()
        &&& !self.built ==> forall|j: int| 0 <= j < 2 * self.n2 - 1 ==> #[trigger] self.lazy_ops@[j] is None
        &&& self.built ==> tree_ok::<X, M, Op>(self.dat@, self.lazy_ops@, 0, self.height@)
    }

    fn push_to_child(&mut self, nc: usize, m: M)
        requires
            nc < old(self).lazy_ops.len(),
        ensures
            final(self).lazy_ops@ == old(self).lazy_ops@.update(
                nc as int,
                push_opt::<X, M, Op>(old(self).lazy_ops@[nc as int], m),
            ),
            final(self).dat@ == old(self).dat@,
            final(self).core_same(old(self)),
    {
        match self.lazy_ops[nc] {
            Some(v) => {
                let c = self.ops.concat(v, m);
                self.lazy_ops.set(nc, Some(c));
            },
            None => {
                self.lazy_ops.set(nc, Some(m));
            },
        }
    }

    /// Apply the pending update of `node` to its value and pass it on to its children.
    #[verifier::spinoff_prover]
    fn lazy_eval(&mut self, node: usize, Ghost(l): Ghost<int>, Ghost(d): Ghost<nat>)
        requires
            old(self).core_ok(),
            pos_ok(node as int, l, d, old(self).n2 as int),
            tree_ok::<X, M, Op>(old(self).dat@, old(self).lazy_ops@, node as int, d),
        ensures
            final(self).core_ok(),
            final(self).core_same(old(self)),
            final(self).lazy_ops@[node as int] is None,
            tree_ok::<X, M, Op>(final(self).dat@, final(self).lazy_ops@, node as int, d),
            leaves::<X, M, Op>(final(self).dat@, final(self).lazy_ops@, node as int, d)
                == leaves::<X, M, Op>(old(self).dat@, old(self).lazy_ops@, node as int, d),
            same_outside(old(self).dat@, old(self).lazy_ops@, final(self).dat@, final(self).lazy_ops@, node as int),
    {
        proof {
            lemma_pos_bound(node as int, l, d, self.n2 as int);
        }
        if let Some(lazy_val) = self.lazy_ops[node] {
            let ghost s_dat = self.dat@;
            let ghost s_lz = self.lazy_ops@;
            let n2 = self.n2;
            if node < n2 - 1 {
                proof {
                    if d == 0 {
                        lemma_pos_leaf(node as int, l, n2 as int);
                    }
                    lemma_pos_children(node as int, l, d, n2 as int);
                }
                self.push_to_child(node * 2 + 1, lazy_val);
                self.push_to_child(node * 2 + 2, lazy_val);
            } else {
                proof {
                    if d > 0 {
                        lemma_pos_children(node as int, l, d, n2 as int);
                    }
                }
            }
            let v = self.ops.update(self.dat[node], lazy_val);
            self.dat.set(node, v);
            self.lazy_ops.set(node, None);
            proof {
                let k = node as int;
                let n_dat = self.dat@;
                let n_lz = self.lazy_ops@;
                assert forall|j: int| 0 <= j < n_dat.len() && !#[trigger] in_sub(j, k) implies n_dat[j] == s_dat[j] by {
                }
                if d == 0 {
                    assert(leaves::<X, M, Op>(n_dat, n_lz, k, d) =~= leaves::<X, M, Op>(s_dat, s_lz, k, d));
                    assert forall|j: int| 0 <= j < n_lz.len() && !#[trigger] in_sub(j, k) implies n_lz[j] == s_lz[j] by {
                    }
                } else {
                    let h = (d - 1) as nat;
                    let c1 = 2 * k + 1;
                    let c2 = 2 * k + 2;
                    lemma_in_sub_child(c1, k, c1);
                    lemma_in_sub_child(c2, k, c2);
                    assert forall|j: int| 0 <= j < n_lz.len() && !#[trigger] in_sub(j, k) implies n_lz[j] == s_lz[j] by {
                    }
                    lemma_apply_push::<X, M, Op>(s_dat[c1], s_lz[c1], lazy_val);
                    lemma_apply_push::<X, M, Op>(s_dat[c2], s_lz[c2], lazy_val);
                    Op::lemma_update_distributes(eff::<X, M, Op>(s_dat, s_lz, c1), eff::<X, M, Op>(s_dat, s_lz, c2), lazy_val);
                    // each child's subtree: compare with the state where only the child's
                    // pending update changed
                    let t1 = s_lz.update(c1, push_opt::<X, M, Op>(s_lz[c1], lazy_val));
                    let t2 = s_lz.update(c2, push_opt::<X, M, Op>(s_lz[c2], lazy_val));
                    assert forall|j: int| #[trigger] in_sub(j, c1) && j != c1 && j < 2 * n2 - 1 implies n_dat[j] == s_dat[j]
                        && n_lz[j] == t1[j] by {
                        lemma_in_sub_disjoint(j, k);
                        lemma_in_sub_child(j, k, c1);
                    }
                    assert forall|j: int| #[trigger] in_sub(j, c2) && j != c2 && j < 2 * n2 - 1 implies n_dat[j] == s_dat[j]
                        && n_lz[j] == t2[j] by {
                        lemma_in_sub_disjoint(j, k);
                        lemma_in_sub_child(j, k, c2);
                    }
                    lemma_frame::<X, M, Op>(n_dat, n_lz, s_dat, t1, c1, l, h, n2 as int);
                    lemma_frame::<X, M, Op>(n_dat, n_lz, s_dat, t2, c2, l + pow2k(h), h, n2 as int);
                    assert forall|j: int| #[trigger] in_sub(j, c1) && j != c1 && j < 2 * n2 - 1 implies s_dat[j] == s_dat[j]
                        && s_lz[j] == t1[j] by {
                    }
                    assert forall|j: int| #[trigger] in_sub(j, c2) && j != c2 && j < 2 * n2 - 1 implies s_dat[j] == s_dat[j]
                        && s_lz[j] == t2[j] by {
                    }
                    lemma_frame::<X, M, Op>(s_dat, t1, s_dat, s_lz, c1, l, h, n2 as int);
                    lemma_frame::<X, M, Op>(s_dat, t2, s_dat, s_lz, c2, l + pow2k(h), h, n2 as int);
                    lemma_leaves_after_push::<X, M, Op>(s_dat, s_lz, c1, l, h, n2 as int, lazy_val);
                    lemma_leaves_after_push::<X, M, Op>(s_dat, s_lz, c2, l + pow2k(h), h, n2 as int, lazy_val);
                    let a = leaves::<X, M, Op>(s_dat, s_lz, c1, h);
                    let b = leaves::<X, M, Op>(s_dat, s_lz, c2, h);
                    lemma_leaves_len::<X, M, Op>(s_dat, s_lz, c1, h);
                    lemma_leaves_len::<X, M, Op>(s_dat, s_lz, c2, h);
                    assert(leaves::<X, M, Op>(n_dat, n_lz, k, d) =~= leaves::<X, M, Op>(s_dat, s_lz, k, d));
                }
            }
        }
    }

    /// The fold of the leaves of the subtree at `node` (covering `[node_l, node_r)`) that lie
    /// in `[a, b)`.
    #[verifier::spinoff_prover]
    fn query_sub(
        &mut self,
        a: usize,
        b: usize,
        node: usize,
        node_l: usize,
        node_r: usize,
        Ghost(d): Ghost<nat>,
    ) -> (r: X)
        requires
            old(self).core_ok(),
            pos_ok(node as int, node_l as int, d, old(self).n2 as int),
            node_r == node_l + pow2k(d),
            tree_ok::<X, M, Op>(old(self).dat@, old(self).lazy_ops@, node as int, d),
            a < node_r,
            node_l < b,
            a < b,
        ensures
            final(self).core_ok(),
            final(self).core_same(old(self)),
            final(self).lazy_ops@[node as int] is None,
            tree_ok::<X, M, Op>(final(self).dat@, final(self).lazy_ops@, node as int, d),
            leaves::<X, M, Op>(final(self).dat@, final(self).lazy_ops@, node as int, d)
                == leaves::<X, M, Op>(old(self).dat@, old(self).lazy_ops@, node as int, d),
            same_outside(old(self).dat@, old(self).lazy_ops@, final(self).dat@, final(self).lazy_ops@, node as int),
            r == fold::<X, Op>(
                leaves::<X, M, Op>(old(self).dat@, old(self).lazy_ops@, node as int, d),
                (if a > node_l { a as int } else { node_l as int }) - node_l,
                (if b < node_r { b as int } else { node_r as int }) - node_l,
            ),
        decreases d,
    {
        self.lazy_eval(node, Ghost(node_l as int), Ghost(d));
        let ghost s0_dat = self.dat@;
        let ghost s0_lz = self.lazy_ops@;
        let ghost big_l = leaves::<X, M, Op>(s0_dat, s0_lz, node as int, d);
        proof {
            lemma_pos_bound(node as int, node_l as int, d, self.n2 as int);
            lemma_leaves_len::<X, M, Op>(s0_dat, s0_lz, node as int, d);
            lemma_pow2k_pos(d);
        }
        if (a <= node_l) && (node_r <= b) {
            proof {
                lemma_fold_leaves::<X, M, Op>(s0_dat, s0_lz, node as int, d);
            }
            self.dat[node]
        } else {
            let ghost h = (d - 1) as nat;
            proof {
                if d == 0 {
                    assert(pow2k(0) == 1);
                }
                lemma_pos_children(node as int, node_l as int, d, self.n2 as int);
                lemma_leaves_split::<X, M, Op>(s0_dat, s0_lz, node as int, d);
                lemma_leaves_len::<X, M, Op>(s0_dat, s0_lz, 2 * node + 1, h);
                lemma_leaves_len::<X, M, Op>(s0_dat, s0_lz, 2 * node + 2, h);
            }
            let n0 = node * 2 + 1;
            let l0 = node_l;
            let r0 = (node_l + node_r) / 2;
            let n1 = node * 2 + 2;
            let l1 = (node_l + node_r) / 2;
            let r1 = node_r;
            let ghost q = pow2k(h);
            let ghost la = leaves::<X, M, Op>(s0_dat, s0_lz, n0 as int, h);
            let ghost lb = leaves::<X, M, Op>(s0_dat, s0_lz, n1 as int, h);
            let ghost lo = (if a > node_l { a as int } else { node_l as int }) - node_l;
            let ghost hi = (if b < node_r { b as int } else { node_r as int }) - node_l;
            assert(r0 == node_l + q);
            if (a < r0) && (l0 < b) {
                if (a < r1) && (l1 < b) {
                    let v0 = self.query_sub(a, b, n0, l0, r0, Ghost(h));
                    let ghost s1_dat = self.dat@;
                    let ghost s1_lz = self.lazy_ops@;
                    proof {
                        lemma_child_frame::<X, M, Op>(s0_dat, s0_lz, s1_dat, s1_lz, node as int, n0 as int, n1 as int, l1 as int, h, self.n2 as int);
                    }
                    let v1 = self.query_sub(a, b, n1, l1, r1, Ghost(h));
                    proof {
                        let s2_dat = self.dat@;
                        let s2_lz = self.lazy_ops@;
                        lemma_child_frame::<X, M, Op>(s1_dat, s1_lz, s2_dat, s2_lz, node as int, n1 as int, n0 as int, l0 as int, h, self.n2 as int);
                        lemma_fold_leaves::<X, M, Op>(s0_dat, s0_lz, n0 as int, h);
                        lemma_fold_leaves::<X, M, Op>(s0_dat, s0_lz, n1 as int, h);
                        lemma_fold_leaves::<X, M, Op>(s2_dat, s2_lz, n0 as int, h);
                        lemma_fold_leaves::<X, M, Op>(s2_dat, s2_lz, n1 as int, h);
                        lemma_leaves_split::<X, M, Op>(s2_dat, s2_lz, node as int, d);
                        lemma_fold_split::<X, Op>(big_l, lo, q, hi);
                        lemma_fold_ext::<X, Op>(la, big_l, lo, q, 0);
                        lemma_fold_ext::<X, Op>(lb, big_l, 0, hi - q, q);
                    }
                    self.ops.pair(v0, v1)
                } else {
                    let v0 = self.query_sub(a, b, n0, l0, r0, Ghost(h));
                    proof {
                        let s1_dat = self.dat@;
                        let s1_lz = self.lazy_ops@;
                        lemma_child_frame::<X, M, Op>(s0_dat, s0_lz, s1_dat, s1_lz, node as int, n0 as int, n1 as int, l1 as int, h, self.n2 as int);
                        lemma_fold_leaves::<X, M, Op>(s0_dat, s0_lz, n0 as int, h);
                        lemma_fold_leaves::<X, M, Op>(s1_dat, s1_lz, n0 as int, h);
                        lemma_leaves_split::<X, M, Op>(s1_dat, s1_lz, node as int, d);
                        lemma_fold_ext::<X, Op>(la, big_l, lo, hi, 0);
                    }
                    v0
                }
            } else {
                let v1 = self.query_sub(a, b, n1, l1, r1, Ghost(h));
                proof {
                    let s1_dat = self.dat@;
                    let s1_lz = self.lazy_ops@;
                    lemma_child_frame::<X, M, Op>(s0_dat, s0_lz, s1_dat, s1_lz, node as int, n1 as int, n0 as int, l0 as int, h, self.n2 as int);
                    lemma_fold_leaves::<X, M, Op>(s0_dat, s0_lz, n1 as int, h);
                    lemma_fold_leaves::<X, M, Op>(s1_dat, s1_lz, n1 as int, h);
                    lemma_leaves_split::<X, M, Op>(s1_dat, s1_lz, node as int, d);
                    lemma_fold_ext::<X, Op>(lb, big_l, lo - q, hi - q, q);
                }
                v1
            }
        }
    }

    /// Apply `m` to the leaves of the subtree at `node` (covering `[node_l, node_r)`) that lie
    /// in `[a, b)`.
    #[verifier::spinoff_prover]
    fn reserve_sub(
        &mut self,
        a: usize,
        b: usize,
        m: M,
        node: usize,
        node_l: usize,
        node_r: usize,
        Ghost(d): Ghost<nat>,
    )
        requires
            old(self).core_ok(),
            pos_ok(node as int, node_l as int, d, old(self).n2 as int),
            node_r == node_l + pow2k(d),
            tree_ok::<X, M, Op>(old(self).dat@, old(self).lazy_ops@, node as int, d),
        ensures
            final(self).core_ok(),
            final(self).core_same(old(self)),
            final(self).lazy_ops@[node as int] is None,
            tree_ok::<X, M, Op>(final(self).dat@, final(self).lazy_ops@, node as int, d),
            leaves::<X, M, Op>(final(self).dat@, final(self).lazy_ops@, node as int, d)
                == range_update::<X, M, Op>(
                leaves::<X, M, Op>(old(self).dat@, old(self).lazy_ops@, node as int, d),
                node_l as int,
                a as int,
                b as int,
                m,
            ),
            same_outside(old(self).dat@, old(self).lazy_ops@, final(self).dat@, final(self).lazy_ops@, node as int),
        decreases d,
    {
        self.lazy_eval(node, Ghost(node_l as int), Ghost(d));
        let ghost s0_dat = self.dat@;
        let ghost s0_lz = self.lazy_ops@;
        let ghost big_l = leaves::<X, M, Op>(s0_dat, s0_lz, node as int, d);
        proof {
            lemma_pos_bound(node as int, node_l as int, d, self.n2 as int);
            lemma_leaves_len::<X, M, Op>(s0_dat, s0_lz, node as int, d);
            lemma_pow2k_pos(d);
        }
        if (a <= node_l) && (node_r <= b) {
            self.push_to_child(node, m);
            proof {
                let t_dat = self.dat@;
                let t_lz = self.lazy_ops@;
                lemma_leaves_after_push::<X, M, Op>(s0_dat, s0_lz, node as int, node_l as int, d, self.n2 as int, m);
                assert forall|j: int| #[trigger] in_sub(j, node as int) && j != node && j < 2 * self.n2 - 1 implies t_dat[j] == s0_dat[j]
                    && t_lz[j] == s0_lz[j] by {
                }
                lemma_frame::<X, M, Op>(t_dat, t_lz, s0_dat, s0_lz, node as int, node_l as int, d, self.n2 as int);
                assert(in_sub(node as int, node as int));
            }
            self.lazy_eval(node, Ghost(node_l as int), Ghost(d));
            proof {
                let f = leaves::<X, M, Op>(self.dat@, self.lazy_ops@, node as int, d);
                assert(f =~= range_update::<X, M, Op>(big_l, node_l as int, a as int, b as int, m));
            }
        } else if (node_r > a) && (b > node_l) {
            let ghost h = (d - 1) as nat;
            proof {
                if d == 0 {
                    assert(pow2k(0) == 1);
                }
                lemma_pos_children(node as int, node_l as int, d, self.n2 as int);
                lemma_leaves_split::<X, M, Op>(s0_dat, s0_lz, node as int, d);
                lemma_leaves_len::<X, M, Op>(s0_dat, s0_lz, 2 * node + 1, h);
                lemma_leaves_len::<X, M, Op>(s0_dat, s0_lz, 2 * node + 2, h);
            }
            let mid = (node_l + node_r) / 2;
            let n0 = node * 2 + 1;
            let n1 = node * 2 + 2;
            let ghost q = pow2k(h);
            let ghost la = leaves::<X, M, Op>(s0_dat, s0_lz, n0 as int, h);
            let ghost lb = leaves::<X, M, Op>(s0_dat, s0_lz, n1 as int, h);
            assert(mid == node_l + q);
            self.reserve_sub(a, b, m, n0, node_l, mid, Ghost(h));
            let ghost s1_dat = self.dat@;
            let ghost s1_lz = self.lazy_ops@;
            proof {
                lemma_child_frame::<X, M, Op>(s0_dat, s0_lz, s1_dat, s1_lz, node as int, n0 as int, n1 as int, mid as int, h, self.n2 as int);
            }
            self.reserve_sub(a, b, m, n1, mid, node_r, Ghost(h));
            let ghost s2_dat = self.dat@;
            let ghost s2_lz = self.lazy_ops@;
            proof {
                lemma_child_frame::<X, M, Op>(s1_dat, s1_lz, s2_dat, s2_lz, node as int, n1 as int, n0 as int, node_l as int, h, self.n2 as int);
            }
            let v = self.ops.pair(self.dat[n0], self.dat[n1]);
            self.dat.set(node, v);
            proof {
                let s3_dat = self.dat@;
                let s3_lz = self.lazy_ops@;
                lemma_in_sub_child(n0 as int, node as int, n0 as int);
                lemma_in_sub_child(n1 as int, node as int, n1 as int);
                assert forall|j: int| #[trigger] in_sub(j, n0 as int) && j != n0 && j < 2 * self.n2 - 1 implies s3_dat[j] == s2_dat[j]
                    && s3_lz[j] == s2_lz[j] by {
                }
                assert forall|j: int| #[trigger] in_sub(j, n1 as int) && j != n1 && j < 2 * self.n2 - 1 implies s3_dat[j] == s2_dat[j]
                    && s3_lz[j] == s2_lz[j] by {
                }
                lemma_frame::<X, M, Op>(s3_dat, s3_lz, s2_dat, s2_lz, n0 as int, node_l as int, h, self.n2 as int);
                lemma_frame::<X, M, Op>(s3_dat, s3_lz, s2_dat, s2_lz, n1 as int, mid as int, h, self.n2 as int);
                lemma_leaves_split::<X, M, Op>(s3_dat, s3_lz, node as int, d);
                assert forall|j: int| 0 <= j < s3_dat.len() && !#[trigger] in_sub(j, node as int) implies s3_dat[j] == s0_dat[j] by {
                }
                let f = leaves::<X, M, Op>(s3_dat, s3_lz, node as int, d);
                assert(f =~= range_update::<X, M, Op>(big_l, node_l as int, a as int, b as int, m));
            }
        } else {
            proof {
                assert(big_l =~= range_update::<X, M, Op>(big_l, node_l as int, a as int, b as int, m));
            }
        }
    }

    /// Compute every internal node from its children, from the bottom up.
    fn build(&mut self)
        requires
            old(self).core_ok(),
            forall|j: int| 0 <= j < 2 * old(self).n2 - 1 ==> #[trigger] old(self).lazy_ops@[j] is None,
        ensures
            final(self).core_ok(),
            final(self).core_same(old(self)),
            final(self).lazy_ops@ == old(self).lazy_ops@,
            tree_ok::<X, M, Op>(final(self).dat@, final(self).lazy_ops@, 0, final(self).height@),
            final(self)@ == old(self)@,
    {
        let n2 = self.n2;
        let ghost h = self.height@;
        proof {
            lemma_pow2k_pos(h);
        }
        let mut k = n2 - 1;
        while k > 0
            invariant
                self.core_ok(),
                self.core_same(old(self)),
                self.n2 == n2,
                k <= n2 - 1,
                self.lazy_ops@ == old(self).lazy_ops@,
                self.dat.len() == old(self).dat.len(),
                forall|j: int| n2 - 1 <= j < self.dat.len() ==> #[trigger] self.dat@[j] == old(self).dat@[j],
                forall|j: int| k <= j < n2 - 1 ==> #[trigger] self.dat@[j] == Op::spec_pair(self.dat@[2 * j + 1], self.dat@[2 * j + 2]),
            decreases k,
        {
            k -= 1;
            let v = self.ops.pair(self.dat[2 * k + 1], self.dat[2 * k + 2]);
            self.dat.set(k, v);
        }
        proof {
            assert(pos_ok(0, 0, h, n2 as int));
            lemma_build_ok::<X, M, Op>(self.dat@, self.lazy_ops@, 0, 0, h, n2 as int);
            lemma_raw_leaves::<X, M, Op>(self.dat@, self.lazy_ops@, 0, 0, h, n2 as int);
            lemma_raw_leaves::<X, M, Op>(old(self).dat@, old(self).lazy_ops@, 0, 0, h, n2 as int);
            assert(self@ =~= old(self)@);
        }
    }

    fn ensure_built(&mut self)
        requires
            old(self).well_formed(),
        ensures
            final(self).well_formed(),
            final(self).is_built(),
            final(self)@ == old(self)@,
            final(self).leaf_count() == old(self).leaf_count(),
            final(self).storage_len() == old(self).storage_len(),
    {
        if !self.built {
            self.build();
            self.built = true;
        }
    }

    /// The smallest power of two that is at least `n`, for `n >= 1`, with its exponent.
    fn leaf_count_for(n: usize) -> (r: (usize, Ghost<nat>))
        requires
            1 <= n <= usize::MAX / 4,
        ensures
            r.0 == pow2k(r.1@),
            n <= r.0 < 2 * n,
    {
        let mut n2 = 1_usize;
        let ghost mut h: nat = 0;
        while n > n2
            invariant
                n2 == pow2k(h),
                1 <= n2 <= 2 * n - 1,
                1 <= n <= usize::MAX / 4,
            decreases 2 * n - n2,
        {
            n2 *= 2;
            proof {
                h = h + 1;
            }
        }
        (n2, Ghost(h))
    }

    /// A tree of `n` leaves (rounded up to a power of two), all equal to `ini_val`.
    pub fn new(n: usize, ops: Op, ini_val: X) -> (r: Self)
        requires
            1 <= n <= usize::MAX / 4,
        ensures
            r.well_formed(),
            !r.is_built(),
            exists|h: nat| pow2k(h) == r.leaf_count(),
            n <= r.leaf_count() < 2 * n,
            r.storage_len() == 4 * n,
            r@ == Seq::new(r.leaf_count(), |i: int| ini_val),
    {
        let (n2, Ghost(h)) = Self::leaf_count_for(n);
        let mut dat: Vec<X> = Vec::new();
        let mut lazy_ops: Vec<Option<M>> = Vec::new();
        let mut i: usize = 0;
        while i < n * 4
            invariant
                i <= n * 4,
                n <= usize::MAX / 4,
                dat@ == Seq::new(i as nat, |j: int| ini_val),
                lazy_ops@ == Seq::new(i as nat, |j: int| None::<M>),
            decreases n * 4 - i,
        {
            dat.push(ini_val);
            lazy_ops.push(None);
            i += 1;
        }
        let mut ret = LazySegmentTree { n2, ops, dat, lazy_ops, built: false, height: Ghost(h) };
        proof {
            lemma_pow2k_pos(h);
            lemma_raw_leaves::<X, M, Op>(ret.dat@, ret.lazy_ops@, 0, 0, h, n2 as int);
            assert(ret@ =~= Seq::new(n2 as nat, |i: int| ini_val));
        }
        ret.init_all(ini_val);
        ret
    }

    /// A tree whose first leaves are `init_vals`; the remaining leaves, up to the next power
    /// of two, hold `init_vals[0]`.
    pub fn from_vec(ops: Op, init_vals: Vec<X>) -> (r: Self)
        requires
            1 <= init_vals.len() <= usize::MAX / 4,
        ensures
            r.well_formed(),
            !r.is_built(),
            exists|h: nat| pow2k(h) == r.leaf_count(),
            init_vals.len() <= r.leaf_count() < 2 * init_vals.len(),
            r.storage_len() == 4 * init_vals.len(),
            r@ == init_vals@ + Seq::new((r.leaf_count() - init_vals.len()) as nat, |i: int| init_vals@[0]),
    {
        let n = init_vals.len();
        let (n2, Ghost(h)) = Self::leaf_count_for(n);
        let mut dat: Vec<X> = Vec::new();
        let mut lazy_ops: Vec<Option<M>> = Vec::new();
        let mut i: usize = 0;
        while i < n * 4
            invariant
                i <= n * 4,
                n == init_vals.len(),
                n <= usize::MAX / 4,
                dat@ == Seq::new(i as nat, |j: int| init_vals@[0]),
                lazy_ops@ == Seq::new(i as nat, |j: int| None::<M>),
            decreases n * 4 - i,
        {
            dat.push(init_vals[0]);
            lazy_ops.push(None);
            i += 1;
        }
        let mut ret = LazySegmentTree { n2, ops, dat, lazy_ops, built: false, height: Ghost(h) };
        proof {
            lemma_pow2k_pos(h);
            lemma_raw_leaves::<X, M, Op>(ret.dat@, ret.lazy_ops@, 0, 0, h, n2 as int);
            assert(ret@ =~= Seq::new(n2 as nat, |i: int| init_vals@[0]));
        }
        let mut i: usize = 0;
        while i < n
            invariant
                i <= n,
                n == init_vals.len(),
                n <= n2,
                ret.well_formed(),
                !ret.is_built(),
                ret.leaf_count() == n2,
                ret.storage_len() == 4 * n,
                n2 < 2 * n,
                ret@ == init_vals@.subrange(0, i as int) + Seq::new((n2 - i) as nat, |j: int| init_vals@[0]),
            decreases n - i,
        {
            ret.set(i, init_vals[i]);
            assert(ret@ =~= init_vals@.subrange(0, i + 1) + Seq::new((n2 - (i + 1)) as nat, |j: int| init_vals@[0]));
            i += 1;
        }
        assert(init_vals@.subrange(0, n as int) =~= init_vals@);
        ret
    }

    fn init_all(&mut self, ini_val: X)
        requires
            old(self).well_formed(),
            !old(self).is_built(),
            old(self).leaf_count() <= old(self).storage_len(),
        ensures
            final(self).well_formed(),
            !final(self).is_built(),
            final(self).leaf_count() == old(self).leaf_count(),
            final(self).storage_len() == old(self).storage_len(),
            final(self)@ == Seq::new(old(self).leaf_count(), |i: int| ini_val),
    {
        let n2 = self.n2;
        proof {
            lemma_leaves_len::<X, M, Op>(self.dat@, self.lazy_ops@, 0, self.height@);
        }
        for i in 0..n2
            invariant
                self.well_formed(),
                !self.is_built(),
                self.leaf_count() == n2,
                n2 == old(self).leaf_count(),
                self.storage_len() == old(self).storage_len(),
                self.leaf_count() <= self.storage_len(),
                self@.len() == n2,
                forall|j: int| 0 <= j < i ==> #[trigger] self@[j] == ini_val,
        {
            self.set(i, ini_val);
        }
        assert(self@ =~= Seq::new(n2 as nat, |i: int| ini_val));
    }

    /// The fold of the leaves in the closed interval `[a, b]` (cut off at the last leaf).
    pub fn query(&mut self, a: usize, b: usize) -> (r: X)
        requires
            old(self).well_formed(),
            a <= b,
            a < old(self).leaf_count(),
            b < usize::MAX,
        ensures
            final(self).well_formed(),
            final(self).is_built(),
            final(self)@ == old(self)@,
            final(self).leaf_count() == old(self).leaf_count(),
            final(self).storage_len() == old(self).storage_len(),
            r == fold::<X, Op>(
                old(self)@,
                a as int,
                if b + 1 < old(self).leaf_count() { b + 1 } else { old(self).leaf_count() as int },
            ),
    {
        self.ensure_built();
        let n2 = self.n2;
        proof {
            assert(pos_ok(0, 0, self.height@, n2 as int));
        }
        self.query_sub(a, b + 1, 0, 0, n2, Ghost(self.height@))
    }

    /// Apply `m` to every leaf in the closed interval `[a, b]`.
    pub fn reserve(&mut self, a: usize, b: usize, m: M)
        requires
            old(self).well_formed(),
            b < usize::MAX,
        ensures
            final(self).well_formed(),
            final(self).is_built(),
            final(self).leaf_count() == old(self).leaf_count(),
            final(self).storage_len() == old(self).storage_len(),
            final(self)@ == Seq::new(
                old(self)@.len(),
                |i: int| if a <= i <= b { Op::spec_update(old(self)@[i], m) } else { old(self)@[i] },
            ),
    {
        self.ensure_built();
        let n2 = self.n2;
        proof {
            assert(pos_ok(0, 0, self.height@, n2 as int));
        }
        self.reserve_sub(a, b + 1, m, 0, 0, n2, Ghost(self.height@));
        assert(self@ =~= Seq::new(
            old(self)@.len(),
            |i: int| if a <= i <= b { Op::spec_update(old(self)@[i], m) } else { old(self)@[i] },
        ));
    }

    /// The number of node slots allocated.
    pub closed spec fn storage_len(&self) -> nat {
        self.dat@.len()
    }

    /// Replace the value of leaf `i`; meant for setting up the leaves before the first
    /// query or reservation, as `new` and `from_vec` do.
    pub fn set(&mut self, i: usize, val: X)
        requires
            old(self).well_formed(),
            i + old(self).leaf_count() - 1 < old(self).storage_len(),
        ensures
            final(self).leaf_count() == old(self).leaf_count(),
            final(self).storage_len() == old(self).storage_len(),
            final(self).is_built() == old(self).is_built(),
            !old(self).is_built() && i < old(self).leaf_count() ==> final(self).well_formed() && final(self)@
                == old(self)@.update(i as int, val),
            i >= old(self).leaf_count() ==> final(self).well_formed() && final(self)@ == old(self)@,
    {
        let ghost old_dat = self.dat@;
        proof {
            lemma_pow2k_pos(self.height@);
        }
        let p = i + self.n2 - 1;
        self.dat.set(p, val);
        proof {
            let h = self.height@;
            let n2 = self.n2 as int;
            assert(pos_ok(0, 0, h, n2));
            if i >= self.n2 {
                assert forall|j: int| #[trigger] in_sub(j, 0) && j != 0 && j < 2 * n2 - 1 implies self.dat@[j] == old_dat[j]
                    && self.lazy_ops@[j] == old(self).lazy_ops@[j] by {
                }
                lemma_pow2k_pos(h);
                lemma_frame::<X, M, Op>(self.dat@, self.lazy_ops@, old_dat, old(self).lazy_ops@, 0, 0, h, n2);
            } else if !self.built {
                lemma_raw_leaves::<X, M, Op>(self.dat@, self.lazy_ops@, 0, 0, h, n2);
                lemma_raw_leaves::<X, M, Op>(old_dat, old(self).lazy_ops@, 0, 0, h, n2);
                assert(self@ =~= old(self)@.update(i as int, val));
            }
        }
    }
}

} // verus!
