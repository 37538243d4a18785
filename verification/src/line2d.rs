//! A line through two lattice points, in a canonical integer form.
use vstd::prelude::*;
use vstd::arithmetic::mul::{lemma_mul_is_associative, lemma_mul_is_commutative, lemma_mul_is_distributive_add, lemma_mul_is_distributive_add_other_way};
use crate::gcd::{divides, gcd, lemma_bezout, lemma_divides_trans, lemma_gcd_divides, lemma_gcd_greatest, spec_ext_gcd, spec_gcd};

verus! {

/// The line `a * y - b * x == c`, with `(a, b, c)` coprime and its first non-zero entry of
/// `a`, `b` positive.
#[derive(Debug, Clone, Copy, PartialEq, Eq, Hash, Structural)]
pub struct Line2d(pub i64, pub i64, pub i64);

/// The absolute value.
pub open spec fn abs_int(v: int) -> int {
    if v < 0 {
        -v
    } else {
        v
    }
}

/// The common divisor of the three coefficients by which the line is reduced.
pub open spec fn coef_gcd(a: int, b: int, c: int) -> int {
    spec_gcd(abs_int(a) as nat, spec_gcd(abs_int(b) as nat, abs_int(c) as nat)) as int
}

/// The canonical form: coprime coefficients, the first non-zero one of `a`, `b` positive.
pub open spec fn canonical(l: Line2d) -> bool {
    &&& coef_gcd(l.0 as int, l.1 as int, l.2 as int) == 1
    &&& (l.0 > 0 || (l.0 == 0 && l.1 > 0))
}

/// `(y, x)` lies on the line `(a, b, c)`.
pub open spec fn on_line(l: Line2d, y: int, x: int) -> bool {
    l.0 * y - l.1 * x == l.2
}

proof fn lemma_divides_abs(d: int, v: int)
    requires
        divides(d, abs_int(v)),
    ensures
        divides(d, v),
{
    if v < 0 {
        let k = choose|k: int| #[trigger] (d * k) == abs_int(v);
        assert(d * (-k) == v) by (nonlinear_arith)
            requires
                d * k == -v,
        ;
    }
}

proof fn lemma_divides_to_abs(d: int, v: int)
    requires
        divides(d, v),
    ensures
        divides(d, abs_int(v)),
{
    if v < 0 {
        let k = choose|k: int| #[trigger] (d * k) == v;
        assert(d * (-k) == -v) by (nonlinear_arith)
            requires
                d * k == v,
        ;
    }
}

/// The common divisor of three coefficients divides each of them.
proof fn lemma_coef_divides(a: int, b: int, c: int)
    ensures
        divides(coef_gcd(a, b, c), a),
        divides(coef_gcd(a, b, c), b),
        divides(coef_gcd(a, b, c), c),
{
    let inner = spec_gcd(abs_int(b) as nat, abs_int(c) as nat);
    let g = coef_gcd(a, b, c);
    lemma_gcd_divides(abs_int(a) as nat, inner);
    lemma_gcd_divides(abs_int(b) as nat, abs_int(c) as nat);
    lemma_divides_trans(g, inner as int, abs_int(b));
    lemma_divides_trans(g, inner as int, abs_int(c));
    lemma_divides_abs(g, a);
    lemma_divides_abs(g, b);
    lemma_divides_abs(g, c);
}

/// Every common divisor of three coefficients divides their common divisor.
proof fn lemma_coef_greatest(a: int, b: int, c: int, d: int)
    requires
        divides(d, a),
        divides(d, b),
        divides(d, c),
    ensures
        divides(d, coef_gcd(a, b, c)),
{
    lemma_divides_to_abs(d, a);
    lemma_divides_to_abs(d, b);
    lemma_divides_to_abs(d, c);
    lemma_gcd_greatest(abs_int(b) as nat, abs_int(c) as nat, d);
    lemma_gcd_greatest(abs_int(a) as nat, spec_gcd(abs_int(b) as nat, abs_int(c) as nat), d);
}

/// Bezout's identity for three coefficients.
proof fn lemma_coef_bezout(a: int, b: int, c: int) -> (t: (int, int, int))
    ensures
        a * t.0 + b * t.1 + c * t.2 == coef_gcd(a, b, c),
{
    let ab = abs_int(a) as nat;
    let bb = abs_int(b) as nat;
    let cb = abs_int(c) as nat;
    let inner = spec_gcd(bb, cb);
    lemma_bezout(ab, inner);
    lemma_bezout(bb, cb);
    let (p1, q1) = spec_ext_gcd(ab, inner);
    let (p2, q2) = spec_ext_gcd(bb, cb);
    let sa: int = if a < 0 { -1 } else { 1 };
    let sb: int = if b < 0 { -1 } else { 1 };
    let sc: int = if c < 0 { -1 } else { 1 };
    assert(ab == a * sa && bb == b * sb && cb == c * sc);
    let t = (sa * p1, sb * q1 * p2, sc * q1 * q2);
    assert(a * (sa * p1) == ab * p1) by (nonlinear_arith)
        requires
            ab == a * sa,
    ;
    assert(b * (sb * q1 * p2) == (bb * p2) * q1) by (nonlinear_arith)
        requires
            bb == b * sb,
    ;
    assert(c * (sc * q1 * q2) == (cb * q2) * q1) by (nonlinear_arith)
        requires
            cb == c * sc,
    ;
    assert((bb * p2) * q1 + (cb * q2) * q1 == (bb * p2 + cb * q2) * q1) by (nonlinear_arith);
    t
}

/// A common divisor of coefficients not all zero is at least 1.
proof fn lemma_coef_positive(a: int, b: int, c: int)
    requires
        a != 0 || b != 0,
    ensures
        coef_gcd(a, b, c) >= 1,
{
    lemma_coef_divides(a, b, c);
    let g = coef_gcd(a, b, c);
    if a != 0 {
        lemma_divides_to_abs(g, a);
        lemma_divisor_le(g, abs_int(a));
    } else {
        lemma_divides_to_abs(g, b);
        lemma_divisor_le(g, abs_int(b));
    }
}

/// With `v . t == 1` and `(uj, vj)` proportional to each `(ui, vi)`, `uj` is `u . t` times
/// `vj`.
proof fn lemma_scale(uj: int, vj: int, u0: int, u1: int, u2: int, v0: int, v1: int, v2: int, t0: int, t1: int, t2: int)
    requires
        v0 * t0 + v1 * t1 + v2 * t2 == 1,
        uj * v0 == u0 * vj,
        uj * v1 == u1 * vj,
        uj * v2 == u2 * vj,
    ensures
        uj == (u0 * t0 + u1 * t1 + u2 * t2) * vj,
{
    assert(uj == uj * (v0 * t0 + v1 * t1 + v2 * t2)) by (nonlinear_arith)
        requires
            v0 * t0 + v1 * t1 + v2 * t2 == 1,
    ;
    let (a0, a1, a2) = (v0 * t0, v1 * t1, v2 * t2);
    lemma_mul_is_distributive_add(uj, a0 + a1, a2);
    lemma_mul_is_distributive_add(uj, a0, a1);
    lemma_mul_is_associative(uj, v0, t0);
    lemma_mul_is_associative(uj, v1, t1);
    lemma_mul_is_associative(uj, v2, t2);
    let (b0, b1, b2) = (u0 * t0, u1 * t1, u2 * t2);
    lemma_mul_is_distributive_add_other_way(vj, b0 + b1, b2);
    lemma_mul_is_distributive_add_other_way(vj, b0, b1);
    lemma_mul_is_associative(u0, t0, vj);
    lemma_mul_is_associative(u1, t1, vj);
    lemma_mul_is_associative(u2, t2, vj);
    lemma_mul_is_associative(u0, vj, t0);
    lemma_mul_is_associative(u1, vj, t1);
    lemma_mul_is_associative(u2, vj, t2);
    lemma_mul_is_commutative(t0, vj);
    lemma_mul_is_commutative(t1, vj);
    lemma_mul_is_commutative(t2, vj);
}

/// Two lines in canonical form through the same two distinct points are the same line; so
/// the canonical lines through two pairs of distinct points agree exactly when all four
/// points are collinear.
pub proof fn lemma_canonical_line_unique(l1: Line2d, l2: Line2d, y2: int, x2: int, y3: int, x3: int)
    requires
        canonical(l1),
        canonical(l2),
        y2 != y3 || x2 != x3,
        on_line(l2, y2, x2),
        on_line(l2, y3, x3),
    ensures
        l1 == l2 <==> (on_line(l1, y2, x2) && on_line(l1, y3, x3)),
{
    if on_line(l1, y2, x2) && on_line(l1, y3, x3) {
        let (u0, u1, u2) = (l1.0 as int, l1.1 as int, l1.2 as int);
        let (v0, v1, v2) = (l2.0 as int, l2.1 as int, l2.2 as int);
        let dy = y3 - y2;
        let dx = x3 - x2;
        assert(u0 * dy == u1 * dx && v0 * dy == v1 * dx) by (nonlinear_arith)
            requires
                u0 * y2 - u1 * x2 == u2,
                u0 * y3 - u1 * x3 == u2,
                v0 * y2 - v1 * x2 == v2,
                v0 * y3 - v1 * x3 == v2,
                dy == y3 - y2,
                dx == x3 - x2,
        ;
        assert(u0 * v1 == u1 * v0) by (nonlinear_arith)
            requires
                u0 * dy == u1 * dx,
                v0 * dy == v1 * dx,
                dy != 0 || dx != 0,
        ;
        assert(u0 * v2 == (u0 * v0) * y2 - (u0 * v1) * x2) by (nonlinear_arith)
            requires
                v2 == v0 * y2 - v1 * x2,
        ;
        assert(u2 * v0 == (u0 * v0) * y2 - (u1 * v0) * x2) by (nonlinear_arith)
            requires
                u2 == u0 * y2 - u1 * x2,
        ;
        assert(u1 * v2 == (u1 * v0) * y2 - (u1 * v1) * x2) by (nonlinear_arith)
            requires
                v2 == v0 * y2 - v1 * x2,
        ;
        assert(u2 * v1 == (u0 * v1) * y2 - (u1 * v1) * x2) by (nonlinear_arith)
            requires
                u2 == u0 * y2 - u1 * x2,
        ;
        let t = lemma_coef_bezout(v0, v1, v2);
        let r = lemma_coef_bezout(u0, u1, u2);
        let lam = u0 * t.0 + u1 * t.1 + u2 * t.2;
        let mu = v0 * r.0 + v1 * r.1 + v2 * r.2;
        lemma_scale(u0, v0, u0, u1, u2, v0, v1, v2, t.0, t.1, t.2);
        lemma_scale(u1, v1, u0, u1, u2, v0, v1, v2, t.0, t.1, t.2);
        lemma_scale(u2, v2, u0, u1, u2, v0, v1, v2, t.0, t.1, t.2);
        lemma_scale(v0, u0, v0, v1, v2, u0, u1, u2, r.0, r.1, r.2);
        lemma_scale(v1, u1, v0, v1, v2, u0, u1, u2, r.0, r.1, r.2);
        lemma_scale(v2, u2, v0, v1, v2, u0, u1, u2, r.0, r.1, r.2);
        assert(lam == 1 || lam == -1) by (nonlinear_arith)
            requires
                u0 == lam * v0,
                u1 == lam * v1,
                v0 == mu * u0,
                v1 == mu * u1,
                u0 != 0 || u1 != 0,
        ;
        if lam == -1 {
            assert(u0 == -v0 && u1 == -v1);
        }
        assert(u0 == v0 && u1 == v1 && u2 == v2);
    }
}

proof fn lemma_divisor_le(d: int, v: int)
    requires
        d >= 0,
        v > 0,
        divides(d, v),
    ensures
        1 <= d <= v,
{
    let k = choose|kk: int| #[trigger] (d * kk) == v;
    assert(1 <= d <= v) by (nonlinear_arith)
        requires
            d >= 0,
            d * k == v,
            v > 0,
    ;
}

/// `u64` magnitude of a value above `i64::MIN`.
fn magnitude(v: i64) -> (r: u64)
    requires
        v > i64::MIN,
    ensures
        r == abs_int(v as int),
{
    if v < 0 {
        (-v) as u64
    } else {
        v as u64
    }
}

impl Line2d {
    /// The line through the distinct points `(y0, x0)` and `(y1, x1)`.
    pub fn new(y0: i64, x0: i64, y1: i64, x1: i64) -> (l: Line2d)
        requires
            y0 != y1 || x0 != x1,
            i64::MIN < x1 - x0 <= i64::MAX,
            i64::MIN < y1 - y0 <= i64::MAX,
            i64::MIN <= x1 * y0 <= i64::MAX,
            i64::MIN <= x0 * y1 <= i64::MAX,
            i64::MIN < x1 * y0 - x0 * y1 <= i64::MAX,
        ensures
            on_line(l, y0 as int, x0 as int),
            on_line(l, y1 as int, x1 as int),
            canonical(l),
            ({
                let g = coef_gcd(x1 - x0, y1 - y0, x1 * y0 - x0 * y1);
                &&& g >= 1
                &&& {
                    ||| l.0 * g == x1 - x0 && l.1 * g == y1 - y0 && l.2 * g == x1 * y0 - x0 * y1
                    ||| l.0 * g == x0 - x1 && l.1 * g == y0 - y1 && l.2 * g == x0 * y1 - x1 * y0
                }
            }),
    {
        let b = y1 - y0;
        let a = x1 - x0;
        let p = x1 * y0;
        let q = x0 * y1;
        let c = p - q;
        let ua = magnitude(a);
        let ub = magnitude(b);
        let uc = magnitude(c);
        let inner = gcd(ub, uc);
        let ug = gcd(ua, inner);
        let ghost gi = ug as int;
        proof {
            assert(gi == coef_gcd(a as int, b as int, c as int));
            lemma_gcd_divides(ua as nat, inner as nat);
            lemma_gcd_divides(ub as nat, uc as nat);
            lemma_divides_trans(gi, inner as int, ub as int);
            lemma_divides_trans(gi, inner as int, uc as int);
            if a != 0 {
                lemma_divisor_le(gi, ua as int);
            } else {
                assert(b != 0);
                lemma_divisor_le(gi, ub as int);
            }
            lemma_divides_abs(gi, a as int);
            lemma_divides_abs(gi, b as int);
            lemma_divides_abs(gi, c as int);
        }
        let g = ug as i64;
        let ghost ka = choose|k: int| #[trigger] (gi * k) == a as int;
        let ghost kb = choose|k: int| #[trigger] (gi * k) == b as int;
        let ghost kc = choose|k: int| #[trigger] (gi * k) == c as int;
        proof {
            assert(abs_int(ka) <= abs_int(a as int) && abs_int(kb) <= abs_int(b as int) && abs_int(kc) <= abs_int(c as int))
                by (nonlinear_arith)
                requires
                    gi >= 1,
                    gi * ka == a,
                    gi * kb == b,
                    gi * kc == c,
            ;
            vstd::arithmetic::div_mod::lemma_div_multiples_vanish(ka, gi);
            vstd::arithmetic::div_mod::lemma_div_multiples_vanish(kb, gi);
            vstd::arithmetic::div_mod::lemma_div_multiples_vanish(kc, gi);
            assert(gi * ka == ka * gi && gi * kb == kb * gi && gi * kc == kc * gi) by (nonlinear_arith);
        }
        let mut na = exact_div(a, g, Ghost(ka));
        let mut nb = exact_div(b, g, Ghost(kb));
        let mut nc = exact_div(c, g, Ghost(kc));
        proof {
            assert(a * y0 - b * x0 == c) by (nonlinear_arith)
                requires
                    a == x1 - x0,
                    b == y1 - y0,
                    c == x1 * y0 - x0 * y1,
            ;
            assert(a * y1 - b * x1 == c) by (nonlinear_arith)
                requires
                    a == x1 - x0,
                    b == y1 - y0,
                    c == x1 * y0 - x0 * y1,
            ;
            assert(na * y0 - nb * x0 == nc && na * y1 - nb * x1 == nc) by (nonlinear_arith)
                requires
                    gi * na == a,
                    gi * nb == b,
                    gi * nc == c,
                    a * y0 - b * x0 == c,
                    a * y1 - b * x1 == c,
                    gi >= 1,
            ;
            assert(na != 0 || nb != 0) by (nonlinear_arith)
                requires
                    gi * na == a,
                    gi * nb == b,
                    a != 0 || b != 0,
            ;
            assert(na * gi == a && nb * gi == b && nc * gi == c) by (nonlinear_arith)
                requires
                    gi * na == a,
                    gi * nb == b,
                    gi * nc == c,
            ;
        }
        if (na == 0 && nb < 0) || na < 0 {
            let ghost (oa, ob, oc) = (na, nb, nc);
            proof {
                assert((-oa) * y0 - (-ob) * x0 == -oc && (-oa) * y1 - (-ob) * x1 == -oc) by (nonlinear_arith)
                    requires
                        oa * y0 - ob * x0 == oc,
                        oa * y1 - ob * x1 == oc,
                ;
            }
            na = -na;
            nb = -nb;
            nc = -nc;
            proof {
                assert(na * gi == -a && nb * gi == -b && nc * gi == -c) by (nonlinear_arith)
                    requires
                        -na * gi == a,
                        -nb * gi == b,
                        -nc * gi == c,
                ;
            }
        }
        proof {
            lemma_reduced_coprime(a as int, b as int, c as int, gi, na as int, nb as int, nc as int);
        }
        Line2d(na, nb, nc)
    }
}

/// Dividing three coefficients (not both of the first two zero) by their common divisor, up
/// to sign, leaves coefficients whose common divisor is 1.
proof fn lemma_reduced_coprime(a: int, b: int, c: int, g: int, na: int, nb: int, nc: int)
    requires
        g == coef_gcd(a, b, c),
        g >= 1,
        (na * g == a && nb * g == b && nc * g == c) || (na * g == -a && nb * g == -b && nc * g == -c),
        na != 0 || nb != 0,
    ensures
        coef_gcd(na, nb, nc) == 1,
{
    let h = coef_gcd(na, nb, nc);
    lemma_coef_positive(na, nb, nc);
    lemma_coef_divides(na, nb, nc);
    lemma_divides_scaled(g, h, na, a);
    lemma_divides_scaled(g, h, nb, b);
    lemma_divides_scaled(g, h, nc, c);
    lemma_coef_greatest(a, b, c, g * h);
    assert(g * h >= 0) by (nonlinear_arith)
        requires
            g >= 1,
            h >= 1,
    ;
    lemma_divisor_le(g * h, g);
    assert(h <= 1) by (nonlinear_arith)
        requires
            g * h <= g,
            g >= 1,
    ;
}

proof fn lemma_divides_scaled(g: int, h: int, n: int, v: int)
    requires
        divides(h, n),
        n * g == v || n * g == -v,
    ensures
        divides(g * h, v),
{
    let k = choose|k: int| #[trigger] (h * k) == n;
    if n * g == v {
        assert((g * h) * k == v) by (nonlinear_arith)
            requires
                h * k == n,
                n * g == v,
        ;
    } else {
        assert((g * h) * (-k) == v) by (nonlinear_arith)
            requires
                h * k == n,
                n * g == -v,
        ;
    }
}

/// `v / d` for a positive `d` that divides `v` exactly.
fn exact_div(v: i64, d: i64, Ghost(k): Ghost<int>) -> (r: i64)
    requires
        d >= 1,
        d * k == v,
    ensures
        r == k,
        d * r == v,
{
    proof {
        assert(k * d == v) by (nonlinear_arith)
            requires
                d * k == v,
        ;
        vstd::arithmetic::div_mod::lemma_div_multiples_vanish(k, d as int);
        assert(-0x8000_0000_0000_0000 <= k <= 0x7fff_ffff_ffff_ffff) by (nonlinear_arith)
            requires
                d >= 1,
                d * k == v,
                -0x8000_0000_0000_0000 <= v <= 0x7fff_ffff_ffff_ffff,
        ;
    }
    v.checked_div_euclid(d).unwrap()
}

} // verus!
