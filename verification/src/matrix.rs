//! Matrices over the integers modulo `MOD`, with products and powers.
use vstd::prelude::*;
use vstd::arithmetic::div_mod::*;
use crate::modint::ModInt;

verus! {

/// `f(0) + f(1) + ... + f(n - 1)`.
pub open spec fn isum(f: spec_fn(int) -> int, n: nat) -> int
    decreases n,
{
    if n == 0 {
        0
    } else {
        isum(f, (n - 1) as nat) + f(n - 1)
    }
}

proof fn lemma_isum_ext(f: spec_fn(int) -> int, g: spec_fn(int) -> int, n: nat)
    requires
        forall|l: int| 0 <= l < n ==> #[trigger] f(l) == g(l),
    ensures
        isum(f, n) == isum(g, n),
    decreases n,
{
    if n > 0 {
        lemma_isum_ext(f, g, (n - 1) as nat);
    }
}

/// Sums of terms that agree modulo `m` agree modulo `m`.
proof fn lemma_isum_mod(f: spec_fn(int) -> int, g: spec_fn(int) -> int, n: nat, m: int)
    requires
        m > 0,
        forall|l: int| 0 <= l < n ==> #[trigger] f(l) % m == g(l) % m,
    ensures
        isum(f, n) % m == isum(g, n) % m,
    decreases n,
{
    if n > 0 {
        lemma_isum_mod(f, g, (n - 1) as nat, m);
        let a = isum(f, (n - 1) as nat);
        let b = isum(g, (n - 1) as nat);
        lemma_add_mod_noop(a, f(n - 1), m);
        lemma_add_mod_noop(b, g(n - 1), m);
    }
}

/// A sum of zeros is zero.
proof fn lemma_isum_zero(f: spec_fn(int) -> int, n: nat)
    requires
        forall|l: int| 0 <= l < n ==> #[trigger] f(l) == 0,
    ensures
        isum(f, n) == 0,
    decreases n,
{
    if n > 0 {
        lemma_isum_zero(f, (n - 1) as nat);
    }
}

/// A constant factor comes out of a sum.
proof fn lemma_isum_scale(f: spec_fn(int) -> int, c: int, n: nat)
    ensures
        isum(|l: int| c * f(l), n) == c * isum(f, n),
    decreases n,
{
    if n > 0 {
        lemma_isum_scale(f, c, (n - 1) as nat);
        let s = isum(f, (n - 1) as nat);
        assert(c * s + c * f(n - 1) == c * (s + f(n - 1))) by (nonlinear_arith);
    }
}

/// The sum of pointwise sums is the sum of the sums.
proof fn lemma_isum_add(f: spec_fn(int) -> int, g: spec_fn(int) -> int, n: nat)
    ensures
        isum(|l: int| f(l) + g(l), n) == isum(f, n) + isum(g, n),
    decreases n,
{
    if n > 0 {
        lemma_isum_add(f, g, (n - 1) as nat);
    }
}

/// The order of a double sum can be exchanged.
proof fn lemma_isum_swap(g: spec_fn(int, int) -> int, kk: nat, ll: nat)
    ensures
        isum(|k: int| isum(|l: int| g(k, l), ll), kk) == isum(|l: int| isum(|k: int| g(k, l), kk), ll),
    decreases kk,
{
    if kk > 0 {
        let k0 = (kk - 1) as nat;
        lemma_isum_swap(g, k0, ll);
        assert(isum(|k: int| isum(|l: int| g(k, l), ll), k0) == isum(|l: int| isum(|k: int| g(k, l), k0), ll));
        // the outer sum over k < kk splits off k0; on the other side each inner sum does
        let f1 = |l: int| isum(|k: int| g(k, l), k0);
        let f2 = |l: int| g(k0 as int, l);
        let outer = |k: int| isum(|l: int| g(k, l), ll);
        assert(isum(outer, kk) == isum(outer, k0) + outer(k0 as int));
        assert(outer(k0 as int) == isum(f2, ll)) by {
            lemma_isum_ext(|l: int| g(k0 as int, l), f2, ll);
        }
        lemma_isum_add(f1, f2, ll);
        let whole = |l: int| isum(|k: int| g(k, l), kk);
        assert forall|l: int| 0 <= l < ll implies #[trigger] whole(l) == f1(l) + f2(l) by {
            let inner = |k: int| g(k, l);
            assert(isum(inner, kk) == isum(inner, k0) + inner(k0 as int));
        }
        lemma_isum_ext(whole, |l: int| f1(l) + f2(l), ll);
        assert(isum(outer, k0) == isum(f1, ll));
        assert(isum(whole, ll) == isum(f1, ll) + isum(f2, ll));
        lemma_isum_ext(outer, |k: int| isum(|l: int| g(k, l), ll), kk);
        lemma_isum_ext(whole, |l: int| isum(|k: int| g(k, l), kk), ll);
    } else {
        lemma_isum_zero(|l: int| isum(|k: int| g(k, l), 0), ll);
    }
}

/// The `(i, j)` entry of the product of `a` (`h x n`) and `b` (`n x w`), reduced modulo `m`.
pub open spec fn prod_entry(a: Seq<Seq<int>>, b: Seq<Seq<int>>, n: nat, i: int, j: int, m: int) -> int {
    isum(|l: int| a[i][l] * b[l][j], n) % m
}

/// The product of `a` (`h x n`) and `b` (`n x w`) modulo `m`.
pub open spec fn mat_mul(a: Seq<Seq<int>>, b: Seq<Seq<int>>, h: nat, n: nat, w: nat, m: int) -> Seq<Seq<int>> {
    Seq::new(h, |i: int| Seq::new(w, |j: int| prod_entry(a, b, n, i, j, m)))
}

/// The `n x n` identity matrix.
pub open spec fn mat_identity(n: nat) -> Seq<Seq<int>> {
    Seq::new(n, |i: int| Seq::new(n, |j: int| if i == j { 1int } else { 0int }))
}

/// An `h x w` matrix of residues modulo `m`.
pub open spec fn mat_ok(a: Seq<Seq<int>>, h: nat, w: nat, m: int) -> bool {
    &&& a.len() == h
    &&& forall|i: int| 0 <= i < h ==> #[trigger] a[i].len() == w
    &&& forall|i: int, j: int| 0 <= i < h && 0 <= j < w ==> 0 <= #[trigger] a[i][j] < m
}

/// `a^e` for a square matrix `a` of size `n`.
pub open spec fn mat_pow(a: Seq<Seq<int>>, n: nat, e: nat, m: int) -> Seq<Seq<int>>
    decreases e,
{
    if e == 0 {
        mat_identity(n)
    } else {
        mat_mul(mat_pow(a, n, (e - 1) as nat, m), a, n, n, n, m)
    }
}

/// The product of residue matrices is a residue matrix.
pub proof fn lemma_mat_mul_ok(a: Seq<Seq<int>>, b: Seq<Seq<int>>, h: nat, n: nat, w: nat, m: int)
    requires
        m > 0,
    ensures
        mat_ok(mat_mul(a, b, h, n, w, m), h, w, m),
{
    let c = mat_mul(a, b, h, n, w, m);
    assert forall|i: int, j: int| 0 <= i < h && 0 <= j < w implies 0 <= #[trigger] c[i][j] < m by {
        lemma_mod_bound(isum(|l: int| a[i][l] * b[l][j], n), m);
    }
}

proof fn lemma_mod_bound(x: int, m: int)
    requires
        m > 0,
    ensures
        0 <= x % m < m,
{
}

/// A sum whose only non-zero term is at `j` is that term.
proof fn lemma_isum_single(f: spec_fn(int) -> int, j: int, v: int, n: nat)
    requires
        forall|l: int| 0 <= l < n ==> #[trigger] f(l) == if l == j { v } else { 0 },
    ensures
        isum(f, n) == if 0 <= j < n { v } else { 0 },
    decreases n,
{
    if n > 0 {
        lemma_isum_single(f, j, v, (n - 1) as nat);
    }
}

/// The identity is neutral for the product.
pub proof fn lemma_mat_identity(a: Seq<Seq<int>>, h: nat, w: nat, m: int)
    requires
        m > 0,
        mat_ok(a, h, w, m),
    ensures
        mat_mul(a, mat_identity(w), h, w, w, m) == a,
        mat_mul(mat_identity(h), a, h, h, w, m) == a,
{
    let r = mat_mul(a, mat_identity(w), h, w, w, m);
    let id = mat_identity(w);
    assert forall|i: int, j: int| 0 <= i < h && 0 <= j < w implies #[trigger] r[i][j] == a[i][j] by {
        let f = |l: int| a[i][l] * id[l][j];
        assert forall|l: int| 0 <= l < w implies #[trigger] f(l) == if l == j { a[i][j] } else { 0 } by {
            assert(id[l][j] == (if l == j { 1int } else { 0int }));
        }
        lemma_isum_single(f, j, a[i][j], w);
        lemma_small_mod(a[i][j] as nat, m as nat);
        assert(isum(f, w) == a[i][j]);
        assert(r[i][j] == prod_entry(a, id, w, i, j, m));
    }
    assert forall|i: int| 0 <= i < h implies #[trigger] r[i] =~= a[i] by {
        assert forall|j: int| 0 <= j < w implies #[trigger] r[i][j] == a[i][j] by {
        }
    }
    assert(r =~= a);
    let r2 = mat_mul(mat_identity(h), a, h, h, w, m);
    let id2 = mat_identity(h);
    assert forall|i: int, j: int| 0 <= i < h && 0 <= j < w implies #[trigger] r2[i][j] == a[i][j] by {
        let f = |l: int| id2[i][l] * a[l][j];
        assert forall|l: int| 0 <= l < h implies #[trigger] f(l) == if l == i { a[i][j] } else { 0 } by {
            assert(id2[i][l] == (if i == l { 1int } else { 0int }));
        }
        lemma_isum_single(f, i, a[i][j], h);
        lemma_small_mod(a[i][j] as nat, m as nat);
    }
    assert forall|i: int| 0 <= i < h implies #[trigger] r2[i] =~= a[i] by {
        assert forall|j: int| 0 <= j < w implies #[trigger] r2[i][j] == a[i][j] by {
        }
    }
    assert(r2 =~= a);
}

/// The product is associative.
pub proof fn lemma_mat_mul_assoc(
    a: Seq<Seq<int>>,
    b: Seq<Seq<int>>,
    c: Seq<Seq<int>>,
    h: nat,
    n1: nat,
    n2: nat,
    w: nat,
    m: int,
)
    requires
        m > 0,
    ensures
        mat_mul(mat_mul(a, b, h, n1, n2, m), c, h, n2, w, m) == mat_mul(a, mat_mul(b, c, n1, n2, w, m), h, n1, w, m),
{
    let ab = mat_mul(a, b, h, n1, n2, m);
    let bc = mat_mul(b, c, n1, n2, w, m);
    let lhs = mat_mul(ab, c, h, n2, w, m);
    let rhs = mat_mul(a, bc, h, n1, w, m);
    assert forall|i: int, j: int| 0 <= i < h && 0 <= j < w implies #[trigger] lhs[i][j] == rhs[i][j] by {
        let g = |k: int, l: int| a[i][l] * b[l][k] * c[k][j];
        // left: sum over k of (sum over l of a b) * c
        let t1 = |k: int| ab[i][k] * c[k][j];
        let t2 = |k: int| isum(|l: int| a[i][l] * b[l][k], n1) * c[k][j];
        let t3 = |k: int| isum(|l: int| g(k, l), n1);
        assert forall|k: int| 0 <= k < n2 implies #[trigger] t1(k) % m == t2(k) % m by {
            let s = isum(|l: int| a[i][l] * b[l][k], n1);
            lemma_mul_mod_noop_left(s, c[k][j], m);
        }
        lemma_isum_mod(t1, t2, n2, m);
        assert forall|k: int| 0 <= k < n2 implies #[trigger] t2(k) == t3(k) by {
            let f = |l: int| a[i][l] * b[l][k];
            lemma_isum_scale(f, c[k][j], n1);
            assert(isum(f, n1) * c[k][j] == c[k][j] * isum(f, n1)) by (nonlinear_arith);
            assert forall|l: int| 0 <= l < n1 implies #[trigger] (c[k][j] * f(l)) == g(k, l) by {
                assert(c[k][j] * (a[i][l] * b[l][k]) == a[i][l] * b[l][k] * c[k][j]) by (nonlinear_arith);
            }
            lemma_isum_ext(|l: int| c[k][j] * f(l), |l: int| g(k, l), n1);
        }
        lemma_isum_ext(t2, t3, n2);
        lemma_isum_swap(g, n2, n1);
        // right: sum over l of a * (sum over k of b c)
        let u1 = |l: int| a[i][l] * bc[l][j];
        let u2 = |l: int| a[i][l] * isum(|k: int| b[l][k] * c[k][j], n2);
        let u3 = |l: int| isum(|k: int| g(k, l), n2);
        assert forall|l: int| 0 <= l < n1 implies #[trigger] u1(l) % m == u2(l) % m by {
            let s = isum(|k: int| b[l][k] * c[k][j], n2);
            lemma_mul_mod_noop_right(a[i][l], s, m);
        }
        lemma_isum_mod(u1, u2, n1, m);
        assert forall|l: int| 0 <= l < n1 implies #[trigger] u2(l) == u3(l) by {
            let f = |k: int| b[l][k] * c[k][j];
            lemma_isum_scale(f, a[i][l], n2);
            assert forall|k: int| 0 <= k < n2 implies #[trigger] (a[i][l] * f(k)) == g(k, l) by {
                assert(a[i][l] * (b[l][k] * c[k][j]) == a[i][l] * b[l][k] * c[k][j]) by (nonlinear_arith);
            }
            lemma_isum_ext(|k: int| a[i][l] * f(k), |k: int| g(k, l), n2);
        }
        lemma_isum_ext(u2, u3, n1);
    }
    assert forall|i: int| 0 <= i < h implies #[trigger] lhs[i] =~= rhs[i] by {
        assert forall|j: int| 0 <= j < w implies #[trigger] lhs[i][j] == rhs[i][j] by {
        }
    }
    assert(lhs =~= rhs);
}

/// The identity is a residue matrix.
proof fn lemma_identity_ok(n: nat, m: int)
    requires
        m >= 2,
    ensures
        mat_ok(mat_identity(n), n, n, m),
{
}

/// Powers of a residue matrix are residue matrices.
pub proof fn lemma_mat_pow_ok(a: Seq<Seq<int>>, n: nat, e: nat, m: int)
    requires
        m >= 2,
        mat_ok(a, n, n, m),
    ensures
        mat_ok(mat_pow(a, n, e, m), n, n, m),
    decreases e,
{
    if e == 0 {
        lemma_identity_ok(n, m);
    } else {
        lemma_mat_pow_ok(a, n, (e - 1) as nat, m);
        lemma_mat_mul_ok(mat_pow(a, n, (e - 1) as nat, m), a, n, n, n, m);
    }
}

/// `a^x * a^y == a^(x + y)`.
pub proof fn lemma_mat_pow_add(a: Seq<Seq<int>>, n: nat, x: nat, y: nat, m: int)
    requires
        m >= 2,
        mat_ok(a, n, n, m),
    ensures
        mat_mul(mat_pow(a, n, x, m), mat_pow(a, n, y, m), n, n, n, m) == mat_pow(a, n, x + y, m),
    decreases y,
{
    lemma_mat_pow_ok(a, n, x, m);
    if y == 0 {
        lemma_mat_identity(mat_pow(a, n, x, m), n, n, m);
    } else {
        lemma_mat_pow_add(a, n, x, (y - 1) as nat, m);
        lemma_mat_mul_assoc(mat_pow(a, n, x, m), mat_pow(a, n, (y - 1) as nat, m), a, n, n, n, n, m);
        assert(x + y - 1 == x + (y - 1));
    }
}

/// A matrix of integers modulo `MOD`, with `h` rows and `w` columns.
#[derive(Clone)]
pub struct Matrix<const MOD: u64> {
    h: usize,
    w: usize,
    vals: Vec<Vec<ModInt<MOD>>>,
}

/// The entries of a row of residues as integers.
pub open spec fn row_view<const MOD: u64>(row: Seq<ModInt<MOD>>) -> Seq<int> {
    row.map_values(|x: ModInt<MOD>| x@)
}

/// The entries of rows of residues as integers.
pub open spec fn rows_view<const MOD: u64>(vals: Seq<Vec<ModInt<MOD>>>) -> Seq<Seq<int>> {
    vals.map_values(|row: Vec<ModInt<MOD>>| row_view(row@))
}

impl<const MOD: u64> View for Matrix<MOD> {
    type V = Seq<Seq<int>>;

    closed spec fn view(&self) -> Seq<Seq<int>> {
        rows_view(self.vals@)
    }
}

impl<const MOD: u64> Matrix<MOD> {
    /// The number of rows.
    pub closed spec fn rows(&self) -> nat {
        self.h as nat
    }

    /// The number of columns.
    pub closed spec fn cols(&self) -> nat {
        self.w as nat
    }

    /// The internal invariant: the shape matches and every entry is a residue.
    pub closed spec fn well_formed(&self) -> bool {
        &&& self.vals.len() == self.h
        &&& forall|i: int| 0 <= i < self.h ==> #[trigger] self.vals@[i].len() == self.w
        &&& mat_ok(self@, self.h as nat, self.w as nat, MOD as int)
    }

    /// An `h x w` matrix of zeros.
    pub fn new(h: usize, w: usize) -> (r: Self)
        requires
            ModInt::<MOD>::valid_modulus(),
        ensures
            r.well_formed(),
            r.rows() == h,
            r.cols() == w,
            r@ == Seq::new(h as nat, |i: int| Seq::new(w as nat, |j: int| 0int)),
    {
        let mut vals: Vec<Vec<ModInt<MOD>>> = Vec::new();
        let mut y: usize = 0;
        while y < h
            invariant
                ModInt::<MOD>::valid_modulus(),
                y <= h,
                vals.len() == y,
                forall|i: int| 0 <= i < y ==> #[trigger] vals@[i].len() == w,
                rows_view(vals@) == Seq::new(y as nat, |i: int| Seq::new(w as nat, |j: int| 0int)),
            decreases h - y,
        {
            let mut line: Vec<ModInt<MOD>> = Vec::new();
            let mut x: usize = 0;
            while x < w
                invariant
                    ModInt::<MOD>::valid_modulus(),
                    x <= w,
                    line.len() == x,
                    row_view(line@) == Seq::new(x as nat, |j: int| 0int),
                decreases w - x,
            {
                let z = ModInt::<MOD>::zero();
                let ghost before = line@;
                line.push(z);
                assert forall|j: int| 0 <= j < x + 1 implies #[trigger] row_view(line@)[j] == 0int by {
                    if j < x {
                        assert(line@[j] == before[j]);
                        assert(row_view(before)[j] == 0int);
                    }
                }
                assert(row_view(line@) =~= Seq::new((x + 1) as nat, |j: int| 0int));
                x += 1;
            }
            let ghost before = vals@;
            vals.push(line);
            assert(rows_view(vals@) =~= Seq::new((y + 1) as nat, |i: int| Seq::new(w as nat, |j: int| 0int))) by {
                assert forall|i: int| 0 <= i < y + 1 implies #[trigger] rows_view(vals@)[i] == Seq::new(
                    w as nat,
                    |j: int| 0int,
                ) by {
                    if i < y {
                        assert(vals@[i] == before[i]);
                        assert(rows_view(before)[i] == Seq::new(w as nat, |j: int| 0int));
                    }
                }
            }
            y += 1;
        }
        Matrix { h, w, vals }
    }

    /// The matrix with ones on the diagonal and zeros elsewhere (square when `h == w`).
    pub fn identity(h: usize, w: usize) -> (r: Self)
        requires
            ModInt::<MOD>::valid_modulus(),
        ensures
            r.well_formed(),
            r.rows() == h,
            r.cols() == w,
            r@ == Seq::new(h as nat, |i: int| Seq::new(w as nat, |j: int| if i == j { 1int } else { 0int })),
    {
        let mut vals: Vec<Vec<ModInt<MOD>>> = Vec::new();
        let mut y: usize = 0;
        while y < h
            invariant
                ModInt::<MOD>::valid_modulus(),
                y <= h,
                vals.len() == y,
                forall|i: int| 0 <= i < y ==> #[trigger] vals@[i].len() == w,
                rows_view(vals@) == Seq::new(
                    y as nat,
                    |i: int| Seq::new(w as nat, |j: int| if i == j { 1int } else { 0int }),
                ),
            decreases h - y,
        {
            let mut line: Vec<ModInt<MOD>> = Vec::new();
            let mut x: usize = 0;
            while x < w
                invariant
                    ModInt::<MOD>::valid_modulus(),
                    x <= w,
                    y < h,
                    line.len() == x,
                    row_view(line@) == Seq::new(
                        x as nat,
                        |j: int| if y == j { 1int } else { 0int },
                    ),
                decreases w - x,
            {
                let v = if y == x { ModInt::<MOD>::one() } else { ModInt::<MOD>::zero() };
                let ghost before = line@;
                line.push(v);
                assert forall|j: int| 0 <= j < x + 1 implies #[trigger] row_view(line@)[j] == (if y == j { 1int } else { 0int }) by {
                    if j < x {
                        assert(line@[j] == before[j]);
                        assert(row_view(before)[j] == (if y == j { 1int } else { 0int }));
                    }
                }
                assert(row_view(line@) =~= Seq::new(
                    (x + 1) as nat,
                    |j: int| if y == j { 1int } else { 0int },
                ));
                x += 1;
            }
            let ghost before = vals@;
            vals.push(line);
            assert(rows_view(vals@) =~= Seq::new(
                (y + 1) as nat,
                |i: int| Seq::new(w as nat, |j: int| if i == j { 1int } else { 0int }),
            )) by {
                assert forall|i: int| 0 <= i < y + 1 implies #[trigger] rows_view(vals@)[i] == Seq::new(
                    w as nat,
                    |j: int| if i == j { 1int } else { 0int },
                ) by {
                    if i < y {
                        assert(vals@[i] == before[i]);
                        assert(rows_view(before)[i] == Seq::new(w as nat, |j: int| if i == j { 1int } else { 0int }));
                    }
                }
            }
            y += 1;
        }
        Matrix { h, w, vals }
    }

    /// The entry in row `y`, column `x`.
    pub fn get(&self, y: usize, x: usize) -> (r: ModInt<MOD>)
        requires
            self.well_formed(),
            y < self.rows(),
            x < self.cols(),
        ensures
            r@ == self@[y as int][x as int],
    {
        assert(self.vals@[y as int].len() == self.w);
        assert(row_view(self.vals@[y as int]@)[x as int] == self.vals@[y as int]@[x as int]@);
        self.vals[y][x]
    }

    /// Replace the entry in row `y`, column `x`.
    pub fn set(&mut self, y: usize, x: usize, v: ModInt<MOD>)
        requires
            old(self).well_formed(),
            y < old(self).rows(),
            x < old(self).cols(),
        ensures
            final(self).well_formed(),
            final(self).rows() == old(self).rows(),
            final(self).cols() == old(self).cols(),
            final(self)@ == old(self)@.update(y as int, old(self)@[y as int].update(x as int, v@)),
    {
        proof {
            use_type_invariant(v);
            v.lemma_range();
        }
        let ghost before = self.vals@;
        assert(self.vals@[y as int].len() == self.w);
        self.vals[y].set(x, v);
        proof {
            let n = old(self)@.update(y as int, old(self)@[y as int].update(x as int, v@));
            assert forall|i: int| 0 <= i < self.h implies #[trigger] self.vals@[i].len() == self.w by {
                if i != y {
                    assert(self.vals@[i] == before[i]);
                }
            }
            assert forall|i: int| 0 <= i < self.h implies #[trigger] self@[i] =~= n[i] by {
                if i != y {
                    assert(self.vals@[i] == before[i]);
                } else {
                    assert forall|j: int| 0 <= j < self.w implies #[trigger] self@[i][j] == n[i][j] by {
                        if j != x {
                            assert(self.vals@[i]@[j] == before[i]@[j]);
                        }
                    }
                }
            }
            assert(self@ =~= n);
            assert forall|i: int, j: int| 0 <= i < self.h && 0 <= j < self.w implies 0 <= #[trigger] self@[i][j] < MOD by {
                if i != y || j != x {
                    assert(self@[i][j] == old(self)@[i][j]);
                }
            }
            assert forall|i: int| 0 <= i < self.h implies #[trigger] self@[i].len() == self.w by {
                assert(self@[i].len() == self.vals@[i]@.len());
            }
        }
    }

    /// A copy of the matrix.
    pub fn duplicate(&self) -> (r: Matrix<MOD>)
        requires
            self.well_formed(),
        ensures
            r.well_formed(),
            r.rows() == self.rows(),
            r.cols() == self.cols(),
            r@ == self@,
    {
        let mut vals: Vec<Vec<ModInt<MOD>>> = Vec::new();
        for y in 0..self.h
            invariant
                self.well_formed(),
                vals.len() == y,
                forall|i: int| 0 <= i < y ==> #[trigger] vals@[i]@ == self.vals@[i]@,
        {
            let mut line: Vec<ModInt<MOD>> = Vec::new();
            assert(self.vals@[y as int].len() == self.w);
            for x in 0..self.w
                invariant
                    self.well_formed(),
                    y < self.h,
                    self.vals@[y as int].len() == self.w,
                    line@ == self.vals@[y as int]@.subrange(0, x as int),
            {
                line.push(self.vals[y][x]);
                assert(line@ =~= self.vals@[y as int]@.subrange(0, x + 1));
            }
            assert(line@ =~= self.vals@[y as int]@);
            vals.push(line);
        }
        let r = Matrix { h: self.h, w: self.w, vals };
        proof {
            assert forall|i: int| 0 <= i < self.h implies #[trigger] r@[i] == self@[i] by {
                assert(r.vals@[i]@ == self.vals@[i]@);
            }
            assert(r@ =~= self@);
            assert forall|i: int| 0 <= i < self.h implies #[trigger] r.vals@[i].len() == self.w by {
                assert(r.vals@[i]@ == self.vals@[i]@);
                assert(self.vals@[i].len() == self.w);
            }
        }
        r
    }

    /// The product `self * rhs`.
    pub fn mul(self, rhs: Matrix<MOD>) -> (r: Matrix<MOD>)
        requires
            ModInt::<MOD>::valid_modulus(),
            self.well_formed(),
            rhs.well_formed(),
            self.cols() == rhs.rows(),
        ensures
            r.well_formed(),
            r.rows() == self.rows(),
            r.cols() == rhs.cols(),
            r@ == mat_mul(self@, rhs@, self.rows(), self.cols(), rhs.cols(), MOD as int),
    {
        let ghost m = MOD as int;
        let ghost a = self@;
        let ghost b = rhs@;
        let mut ret = Self::new(self.h, rhs.w);
        for y in 0..self.h
            invariant
                ModInt::<MOD>::valid_modulus(),
                m == MOD as int,
                a == self@,
                b == rhs@,
                self.well_formed(),
                rhs.well_formed(),
                self.cols() == rhs.rows(),
                ret.well_formed(),
                ret.rows() == self.rows(),
                ret.cols() == rhs.cols(),
                forall|i: int, j: int|
                    0 <= i < y && 0 <= j < rhs.w ==> #[trigger] ret@[i][j] == prod_entry(a, b, self.w as nat, i, j, m),
        {
            for x in 0..rhs.w
                invariant
                    ModInt::<MOD>::valid_modulus(),
                    m == MOD as int,
                    a == self@,
                    b == rhs@,
                    y < self.h,
                    self.well_formed(),
                    rhs.well_formed(),
                    self.cols() == rhs.rows(),
                    ret.well_formed(),
                    ret.rows() == self.rows(),
                    ret.cols() == rhs.cols(),
                    forall|i: int, j: int|
                        0 <= i < y && 0 <= j < rhs.w ==> #[trigger] ret@[i][j] == prod_entry(a, b, self.w as nat, i, j, m),
                    forall|j: int| 0 <= j < x ==> #[trigger] ret@[y as int][j] == prod_entry(a, b, self.w as nat, y as int, j, m),
            {
                let mut acc = ModInt::<MOD>::zero();
                proof {
                    assert(isum(|l: int| a[y as int][l] * b[l][x as int], 0) == 0);
                    assert(0int % m == 0);
                }
                for i in 0..self.w
                    invariant
                        ModInt::<MOD>::valid_modulus(),
                        m == MOD as int,
                        a == self@,
                        b == rhs@,
                        y < self.h,
                        x < rhs.w,
                        self.well_formed(),
                        rhs.well_formed(),
                        self.cols() == rhs.rows(),
                        acc@ == isum(|l: int| a[y as int][l] * b[l][x as int], i as nat) % m,
                {
                    let p = self.get(y, i).mul(rhs.get(i, x));
                    proof {
                        let s = isum(|l: int| a[y as int][l] * b[l][x as int], i as nat);
                        lemma_add_mod_noop(s, a[y as int][i as int] * b[i as int][x as int], m);
                        lemma_mod_twice(s, m);
                        lemma_mod_twice(a[y as int][i as int] * b[i as int][x as int], m);
                        assert(isum(|l: int| a[y as int][l] * b[l][x as int], (i + 1) as nat) == s + a[y as int][i as int]
                            * b[i as int][x as int]);
                    }
                    acc = acc.add(p);
                }
                ret.set(y, x, acc);
            }
        }
        proof {
            let want = mat_mul(a, b, self.h as nat, self.w as nat, rhs.w as nat, m);
            assert forall|i: int| 0 <= i < self.h implies #[trigger] ret@[i] =~= want[i] by {
                assert forall|j: int| 0 <= j < rhs.w implies #[trigger] ret@[i][j] == want[i][j] by {
                }
            }
            assert(ret@ =~= want);
        }
        ret
    }

    /// The entrywise sum `self + rhs`.
    pub fn add(self, rhs: Matrix<MOD>) -> (r: Matrix<MOD>)
        requires
            ModInt::<MOD>::valid_modulus(),
            self.well_formed(),
            rhs.well_formed(),
            self.rows() == rhs.rows(),
            self.cols() == rhs.cols(),
        ensures
            r.well_formed(),
            r.rows() == self.rows(),
            r.cols() == self.cols(),
            r@ == Seq::new(
                self.rows(),
                |i: int| Seq::new(self.cols(), |j: int| (self@[i][j] + rhs@[i][j]) % (MOD as int)),
            ),
    {
        let mut ret = Self::new(self.h, self.w);
        for y in 0..self.h
            invariant
                ModInt::<MOD>::valid_modulus(),
                self.well_formed(),
                rhs.well_formed(),
                self.rows() == rhs.rows(),
                self.cols() == rhs.cols(),
                ret.well_formed(),
                ret.rows() == self.rows(),
                ret.cols() == self.cols(),
                forall|i: int, j: int|
                    0 <= i < y && 0 <= j < self.w ==> #[trigger] ret@[i][j] == (self@[i][j] + rhs@[i][j]) % (MOD as int),
        {
            for x in 0..self.w
                invariant
                    ModInt::<MOD>::valid_modulus(),
                    y < self.h,
                    self.well_formed(),
                    rhs.well_formed(),
                    self.rows() == rhs.rows(),
                    self.cols() == rhs.cols(),
                    ret.well_formed(),
                    ret.rows() == self.rows(),
                    ret.cols() == self.cols(),
                    forall|i: int, j: int|
                        0 <= i < y && 0 <= j < self.w ==> #[trigger] ret@[i][j] == (self@[i][j] + rhs@[i][j]) % (MOD as int),
                    forall|j: int| 0 <= j < x ==> #[trigger] ret@[y as int][j] == (self@[y as int][j] + rhs@[y as int][j]) % (MOD as int),
            {
                let v = self.get(y, x).add(rhs.get(y, x));
                ret.set(y, x, v);
            }
        }
        proof {
            let want = Seq::new(
                self.rows(),
                |i: int| Seq::new(self.cols(), |j: int| (self@[i][j] + rhs@[i][j]) % (MOD as int)),
            );
            assert forall|i: int| 0 <= i < self.h implies #[trigger] ret@[i] =~= want[i] by {
                assert forall|j: int| 0 <= j < self.w implies #[trigger] ret@[i][j] == want[i][j] by {
                }
            }
            assert(ret@ =~= want);
        }
        ret
    }

    /// The product of the matrix with the column vector `rhs`.
    pub fn mul_vec(self, rhs: Vec<ModInt<MOD>>) -> (r: Vec<ModInt<MOD>>)
        requires
            ModInt::<MOD>::valid_modulus(),
            self.well_formed(),
            self.cols() == rhs.len(),
        ensures
            row_view(r@) == Seq::new(
                self.rows(),
                |y: int| isum(|x: int| self@[y][x] * row_view(rhs@)[x], self.cols()) % (MOD as int),
            ),
    {
        let ghost m = MOD as int;
        let ghost a = self@;
        let ghost v = row_view(rhs@);
        let mut ret: Vec<ModInt<MOD>> = Vec::new();
        for y in 0..self.h
            invariant
                ModInt::<MOD>::valid_modulus(),
                m == MOD as int,
                a == self@,
                v == row_view(rhs@),
                self.well_formed(),
                self.cols() == rhs.len(),
                ret.len() == y,
                forall|i: int| 0 <= i < y ==> #[trigger] row_view(ret@)[i] == isum(|x: int| a[i][x] * v[x], self.w as nat) % m,
        {
            let mut acc = ModInt::<MOD>::zero();
            proof {
                assert(isum(|x: int| a[y as int][x] * v[x], 0) == 0);
            }
            for i in 0..self.w
                invariant
                    ModInt::<MOD>::valid_modulus(),
                    m == MOD as int,
                    a == self@,
                    v == row_view(rhs@),
                    y < self.h,
                    self.well_formed(),
                    self.cols() == rhs.len(),
                    acc@ == isum(|x: int| a[y as int][x] * v[x], i as nat) % m,
            {
                let p = self.get(y, i).mul(rhs[i]);
                proof {
                    let s = isum(|x: int| a[y as int][x] * v[x], i as nat);
                    assert(v[i as int] == rhs@[i as int]@);
                    lemma_add_mod_noop(s, a[y as int][i as int] * v[i as int], m);
                    lemma_mod_twice(s, m);
                    lemma_mod_twice(a[y as int][i as int] * v[i as int], m);
                    assert(isum(|x: int| a[y as int][x] * v[x], (i + 1) as nat) == s + a[y as int][i as int] * v[i as int]);
                }
                acc = acc.add(p);
            }
            let ghost before = ret@;
            ret.push(acc);
            proof {
                assert forall|i: int| 0 <= i < y + 1 implies #[trigger] row_view(ret@)[i] == isum(|x: int| a[i][x] * v[x], self.w as nat) % m by {
                    if i < y {
                        assert(ret@[i] == before[i]);
                        assert(row_view(before)[i] == isum(|x: int| a[i][x] * v[x], self.w as nat) % m);
                    }
                }
            }
        }
        proof {
            let want = Seq::new(
                self.rows(),
                |y: int| isum(|x: int| self@[y][x] * row_view(rhs@)[x], self.cols()) % (MOD as int),
            );
            assert forall|y: int| 0 <= y < self.h implies #[trigger] row_view(ret@)[y] == want[y] by {
                lemma_isum_ext(|x: int| a[y][x] * v[x], |x: int| self@[y][x] * row_view(rhs@)[x], self.w as nat);
            }
            assert(row_view(ret@) =~= want);
        }
        ret
    }

    /// `self^p` for a square matrix.
    pub fn pow(&self, p: usize) -> (r: Matrix<MOD>)
        requires
            ModInt::<MOD>::valid_modulus(),
            self.well_formed(),
            self.rows() == self.cols(),
        ensures
            r.well_formed(),
            r.rows() == self.rows(),
            r.cols() == self.cols(),
            r@ == mat_pow(self@, self.rows(), p as nat, MOD as int),
    {
        let ghost m = MOD as int;
        let ghost n = self.h as nat;
        let ghost a = self@;
        let mut ret = Self::identity(self.h, self.w);
        let mut mul = self.duplicate();
        let mut p = p;
        let ghost p0 = p as nat;
        let ghost mut t: nat = 0;
        proof {
            assert(mul@ == a);
            vstd::arithmetic::power2::lemma2_to64();
            assert(ret@ =~= mat_pow(a, n, 0, m));
            assert(mat_pow(a, n, 1, m) == a) by {
                lemma_mat_identity(a, n, n, m);
            }
        }
        while p > 0
            invariant
                ModInt::<MOD>::valid_modulus(),
                m == MOD as int,
                n == self.h,
                a == self@,
                self.well_formed(),
                self.rows() == self.cols(),
                ret.well_formed(),
                mul.well_formed(),
                ret.rows() == n && ret.cols() == n,
                mul.rows() == n && mul.cols() == n,
                p0 == p * vstd::arithmetic::power2::pow2(t) + p0 % vstd::arithmetic::power2::pow2(t),
                ret@ == mat_pow(a, n, p0 % vstd::arithmetic::power2::pow2(t), m),
                mul@ == mat_pow(a, n, vstd::arithmetic::power2::pow2(t), m),
            decreases p,
        {
            let ghost q = vstd::arithmetic::power2::pow2(t);
            proof {
                vstd::arithmetic::power2::lemma_pow2_pos(t);
                vstd::arithmetic::power2::lemma_pow2_unfold(t + 1);
                vstd::arithmetic::div_mod::lemma_mod_breakdown(p0 as int, q as int, 2);
                assert(p0 / q == p) by {
                    vstd::arithmetic::div_mod::lemma_div_multiples_vanish_fancy(p as int, (p0 % q) as int, q as int);
                    assert(p0 == q * p + p0 % q);
                    vstd::arithmetic::div_mod::lemma_fundamental_div_mod_converse(p0 as int, q as int, p as int, (p0 % q) as int);
                }
                assert(p & 1 == p % 2) by (bit_vector);
                assert(p >> 1 == p / 2) by (bit_vector);
            }
            if p & 1 != 0 {
                proof {
                    lemma_mat_pow_add(a, n, p0 % q, q, m);
                    assert((p0 / q) % 2 == 1);
                    assert(q * ((p0 / q) % 2) == q) by (nonlinear_arith)
                        requires
                            (p0 / q) % 2 == 1,
                    ;
                    assert(p0 % (q * 2) == q + p0 % q);
                }
                ret = ret.mul(mul.duplicate());
            } else {
                proof {
                    assert((p0 / q) % 2 == 0);
                    assert(q * ((p0 / q) % 2) == 0) by (nonlinear_arith)
                        requires
                            (p0 / q) % 2 == 0,
                    ;
                    assert(p0 % (q * 2) == p0 % q);
                }
            }
            p >>= 1;
            proof {
                lemma_mat_pow_add(a, n, q, q, m);
                assert(p0 == p * (q * 2) + p0 % (q * 2)) by (nonlinear_arith)
                    requires
                        p0 == (p * 2 + (p0 / q) % 2) * q + p0 % q,
                        p0 % (q * 2) == q * ((p0 / q) % 2) + p0 % q,
                ;
            }
            mul = mul.duplicate().mul(mul.duplicate());
            proof {
                t = t + 1;
            }
        }
        proof {
            assert(p0 % vstd::arithmetic::power2::pow2(t) == p0);
        }
        ret
    }
}

} // verus!
