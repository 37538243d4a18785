//! Fractions of `i64`s kept in lowest terms, with `1/0` standing for infinity.
use vstd::prelude::*;
use crate::gcd::{gcd, spec_gcd, divides, lemma_gcd_divides};

verus! {

/// `|x|`.
pub open spec fn abs(x: int) -> int {
    if x < 0 {
        -x
    } else {
        x
    }
}

/// The fraction `num / denom` in lowest terms with a non-negative denominator: zero is
/// `0/1` and a zero denominator gives `1/0`.
pub open spec fn normalize(num: int, denom: int) -> (int, int) {
    if num == 0 {
        (0, 1)
    } else if denom == 0 {
        (1, 0)
    } else {
        let n = if denom < 0 { -num } else { num };
        let d = if denom < 0 { -denom } else { denom };
        let g = spec_gcd(abs(n) as nat, d as nat) as int;
        (n / g, d / g)
    }
}

/// `num / denom` can be normalized without overflow (and is not `0/0`).
pub open spec fn can_normalize(num: int, denom: int) -> bool {
    &&& !(num == 0 && denom == 0)
    &&& i64::MIN <= num <= i64::MAX
    &&& i64::MIN <= denom <= i64::MAX
    &&& (num != 0 && denom != 0) ==> num != i64::MIN && denom != i64::MIN
}

/// A fraction `num / denom`.
#[derive(Clone, Copy, PartialEq, Eq, Hash)]
pub struct Rational {
    pub num: i64,
    pub denom: i64,
}

/// The gcd of a positive number and another is positive and at most the first.
proof fn lemma_gcd_bounds(a: nat, d: nat)
    requires
        d > 0,
    ensures
        0 < spec_gcd(a, d) <= d,
        divides(spec_gcd(a, d) as int, a as int),
        divides(spec_gcd(a, d) as int, d as int),
{
    lemma_gcd_divides(a, d);
    let g = spec_gcd(a, d) as int;
    let k = choose|k: int| #[trigger] (g * k) == d as int;
    assert(g > 0 && g <= d) by (nonlinear_arith)
        requires
            g * k == d,
            d > 0,
            g >= 0,
    ;
}

/// Exact division: `(g * k) / g == k`.
proof fn lemma_exact_div(g: int, k: int)
    requires
        g > 0,
    ensures
        (g * k) / g == k,
{
    vstd::arithmetic::div_mod::lemma_div_multiples_vanish(k, g);
    assert(g * k == k * g) by (nonlinear_arith);
}

impl Rational {
    /// The fraction `num / denom` in lowest terms.
    pub fn new(num: i64, denom: i64) -> (r: Self)
        requires
            can_normalize(num as int, denom as int),
        ensures
            (r.num as int, r.denom as int) == normalize(num as int, denom as int),
    {
        if num == 0 {
            Rational { num: 0, denom: 1 }
        } else if denom == 0 {
            Rational { num: 1, denom: 0 }
        } else {
            let n = if denom < 0 { -num } else { num };
            let d = if denom < 0 { -denom } else { denom };
            let na: u64 = if n < 0 { (-n) as u64 } else { n as u64 };
            let da: u64 = d as u64;
            let g = gcd(na, da);
            proof {
                lemma_gcd_bounds(na as nat, da as nat);
                let gi = g as int;
                let k1 = choose|k: int| #[trigger] (gi * k) == na as int;
                let k2 = choose|k: int| #[trigger] (gi * k) == da as int;
                lemma_exact_div(gi, k1);
                lemma_exact_div(gi, k2);
                if n < 0 {
                    assert(gi * (-k1) == n) by (nonlinear_arith)
                        requires
                            gi * k1 == na,
                            na == -n,
                    ;
                    lemma_exact_div(gi, -k1);
                }
                assert(abs(n as int) == na as int);
            }
            let qn = na / g;
            let qd = da / g;
            let rn: i64 = if n < 0 { -(qn as i64) } else { qn as i64 };
            Rational { num: rn, denom: qd as i64 }
        }
    }

    /// The sum `self + rhs` (both with non-zero denominators), brought to the least common
    /// denominator and normalized.
    pub open spec fn spec_add_terms(self, rhs: Self) -> (int, int) {
        let d0 = abs(self.denom as int);
        let d1 = abs(rhs.denom as int);
        let g = spec_gcd(d0 as nat, d1 as nat) as int;
        let denom = d0 * (d1 / g);
        (self.num * (denom / d0) + rhs.num * (denom / d1), denom)
    }

    /// The sum can be computed without overflow.
    pub open spec fn add_fits(self, rhs: Self) -> bool {
        let d0 = abs(self.denom as int);
        let d1 = abs(rhs.denom as int);
        let g = spec_gcd(d0 as nat, d1 as nat) as int;
        let denom = d0 * (d1 / g);
        &&& self.denom != 0 && rhs.denom != 0
        &&& self.denom != i64::MIN && rhs.denom != i64::MIN
        &&& denom <= i64::MAX
        &&& i64::MIN <= self.num * (denom / d0) <= i64::MAX
        &&& i64::MIN <= rhs.num * (denom / d1) <= i64::MAX
        &&& can_normalize(self.spec_add_terms(rhs).0, self.spec_add_terms(rhs).1)
    }

    /// `self + rhs`.
    pub fn add(self, rhs: Self) -> (r: Self)
        requires
            self.add_fits(rhs),
        ensures
            (r.num as int, r.denom as int) == normalize(self.spec_add_terms(rhs).0, self.spec_add_terms(rhs).1),
            r.denom > 0,
            r.num * (abs(self.denom as int) * abs(rhs.denom as int)) == r.denom * (self.num * abs(
                rhs.denom as int,
            ) + rhs.num * abs(self.denom as int)),
            self.denom > 0 && rhs.denom > 0 ==> r.num * (self.denom * rhs.denom) == r.denom * (
            self.num * rhs.denom + rhs.num * self.denom),
    {
        proof {
            lemma_add_value(self, rhs);
        }
        let d0 = if self.denom < 0 { -self.denom } else { self.denom };
        let d1 = if rhs.denom < 0 { -rhs.denom } else { rhs.denom };
        let g = gcd(d0 as u64, d1 as u64);
        proof {
            lemma_gcd_bounds(d0 as nat, d1 as nat);
        }
        let g = g as i64;
        let denom = d0 * (d1 / g);
        proof {
            vstd::arithmetic::div_mod::lemma_fundamental_div_mod(d1 as int, g as int);
            assert(d1 / g >= 1) by (nonlinear_arith)
                requires
                    d1 == g * (d1 / g) + d1 % g,
                    0 <= d1 % g < g,
                    g <= d1,
            ;
            assert(denom >= d0) by (nonlinear_arith)
                requires
                    denom == d0 * (d1 / g),
                    d1 / g >= 1,
                    d0 > 0,
            ;
        }
        let n0 = self.num * (denom / d0);
        let n1 = rhs.num * (denom / d1);
        Self::new(n0 + n1, denom)
    }

    /// `-self`.
    pub fn neg(self) -> (r: Self)
        requires
            can_normalize(-(self.num as int), self.denom as int),
        ensures
            (r.num as int, r.denom as int) == normalize(-(self.num as int), self.denom as int),
    {
        Self::new(-self.num, self.denom)
    }

    /// `self - rhs`: `self` plus `-rhs`.
    pub fn sub(self, rhs: Self) -> (r: Self)
        requires
            can_normalize(-(rhs.num as int), rhs.denom as int),
            ({
                let nr = normalize(-(rhs.num as int), rhs.denom as int);
                self.add_fits(Rational { num: nr.0 as i64, denom: nr.1 as i64 })
            }),
        ensures
            ({
                let nr = normalize(-(rhs.num as int), rhs.denom as int);
                let t = self.spec_add_terms(Rational { num: nr.0 as i64, denom: nr.1 as i64 });
                (r.num as int, r.denom as int) == normalize(t.0, t.1)
            }),
            r.denom > 0,
            self.denom > 0 && rhs.denom > 0 ==> r.num * (self.denom * rhs.denom) == r.denom * (
            self.num * rhs.denom - rhs.num * self.denom),
    {
        let m = Self::new(-rhs.num, rhs.denom);
        let r = self.add(m);
        proof {
            if self.denom > 0 && rhs.denom > 0 {
                let a = self.num as int;
                let d0 = self.denom as int;
                let c = rhs.num as int;
                let d1 = rhs.denom as int;
                let p = m.num as int;
                let q = m.denom as int;
                if c != 0 {
                    lemma_normalize_value(-c, d1);
                }
                assert(p * d1 == -c * q && q > 0);
                let rn = r.num as int;
                let rd = r.denom as int;
                assert(rn * (d0 * q) == rd * (a * q + p * d0));
                let lhs = rn * (d0 * d1);
                let rhs_v = rd * (a * d1 - c * d0);
                let pd = p * d1;
                assert(rn * (d0 * q) * d1 == lhs * q) by (nonlinear_arith)
                    requires
                        lhs == rn * (d0 * d1),
                ;
                assert(rd * (a * q + p * d0) * d1 == rd * (a * q * d1 + pd * d0)) by (nonlinear_arith)
                    requires
                        pd == p * d1,
                ;
                assert(pd * d0 == (-c * q) * d0);
                let ad = a * d1;
                let cd = c * d0;
                let xx = ad - cd;
                assert(a * q * d1 == ad * q) by (nonlinear_arith)
                    requires
                        ad == a * d1,
                ;
                assert((-c * q) * d0 == -(cd * q)) by (nonlinear_arith)
                    requires
                        cd == c * d0,
                ;
                assert(ad * q - cd * q == xx * q) by (nonlinear_arith)
                    requires
                        xx == ad - cd,
                ;
                assert(rd * (xx * q) == (rd * xx) * q) by (nonlinear_arith);
                assert(rd * (a * q * d1 + (-c * q) * d0) == rd * (xx * q));
                assert(lhs * q == rhs_v * q);
                assert(lhs == rhs_v) by (nonlinear_arith)
                    requires
                        lhs * q == rhs_v * q,
                        q > 0,
                ;
            }
        }
        r
    }

    /// `self * rhs`.
    pub fn mul(self, rhs: Self) -> (r: Self)
        requires
            can_normalize(self.num * rhs.num, self.denom * rhs.denom),
        ensures
            (r.num as int, r.denom as int) == normalize(self.num * rhs.num, self.denom * rhs.denom),
    {
        Self::new(self.num * rhs.num, self.denom * rhs.denom)
    }

    /// `self / rhs`.
    pub fn div(self, rhs: Self) -> (r: Self)
        requires
            can_normalize(self.num * rhs.denom, rhs.num * self.denom),
        ensures
            (r.num as int, r.denom as int) == normalize(self.num * rhs.denom, rhs.num * self.denom),
    {
        Self::new(self.num * rhs.denom, rhs.num * self.denom)
    }

    /// `self < other`, comparing `num * other.denom` with `denom * other.num`.
    pub fn lt(&self, other: &Self) -> (r: bool)
        requires
            i64::MIN <= self.num * other.denom <= i64::MAX,
            i64::MIN <= self.denom * other.num <= i64::MAX,
        ensures
            r == (self.num * other.denom < self.denom * other.num),
    {
        self.num * other.denom < self.denom * other.num
    }
}

/// The terms of a sum over the least common denominator: that denominator is positive and
/// `N / D == n0 / d0 + n1 / d1` with `d0`, `d1` the magnitudes of the two denominators.
proof fn lemma_add_terms_value(x: Rational, y: Rational)
    requires
        x.denom != 0,
        y.denom != 0,
    ensures
        x.spec_add_terms(y).1 > 0,
        x.spec_add_terms(y).0 * (abs(x.denom as int) * abs(y.denom as int)) == x.spec_add_terms(y).1
            * (x.num * abs(y.denom as int) + y.num * abs(x.denom as int)),
{
    let d0 = abs(x.denom as int);
    let d1 = abs(y.denom as int);
    lemma_gcd_bounds(d0 as nat, d1 as nat);
    let g = spec_gcd(d0 as nat, d1 as nat) as int;
    let b = choose|k: int| #[trigger] (g * k) == d0;
    let a = choose|k: int| #[trigger] (g * k) == d1;
    lemma_exact_div(g, a);
    assert(d1 / g == a);
    let dd = d0 * a;
    lemma_exact_div(d0, a);
    assert(dd / d0 == a);
    assert(dd == d1 * b) by (nonlinear_arith)
        requires
            dd == d0 * a,
            g * b == d0,
            g * a == d1,
    ;
    lemma_exact_div(d1, b);
    assert(dd / d1 == b);
    assert(a > 0 && b > 0) by (nonlinear_arith)
        requires
            g * b == d0,
            g * a == d1,
            g > 0,
            d0 > 0,
            d1 > 0,
    ;
    assert(dd > 0) by (nonlinear_arith)
        requires
            dd == d0 * a,
            d0 > 0,
            a > 0,
    ;
    let nn = x.num * a + y.num * b;
    assert(x.spec_add_terms(y) == (nn, dd));
    let ab = a * b;
    assert(d0 * d1 == (g * g) * ab) by (nonlinear_arith)
        requires
            g * b == d0,
            g * a == d1,
            ab == a * b,
    ;
    assert(x.num * d1 + y.num * d0 == g * nn) by (nonlinear_arith)
        requires
            nn == x.num * a + y.num * b,
            g * b == d0,
            g * a == d1,
    ;
    assert(dd == g * ab) by (nonlinear_arith)
        requires
            dd == d0 * a,
            g * b == d0,
            ab == a * b,
    ;
    assert(nn * ((g * g) * ab) == (g * ab) * (g * nn)) by (nonlinear_arith);
}

/// The value of a sum: for any two fractions with non-zero denominators, `add` gives a
/// positive denominator and `r.num / r.denom == x.num / |x.denom| + y.num / |y.denom|`; with
/// positive denominators (as `new` makes them) that is the value `x + y`.
pub proof fn lemma_add_value(x: Rational, y: Rational)
    requires
        x.denom != 0,
        y.denom != 0,
        can_normalize(x.spec_add_terms(y).0, x.spec_add_terms(y).1),
    ensures
        ({
            let r = normalize(x.spec_add_terms(y).0, x.spec_add_terms(y).1);
            &&& r.1 > 0
            &&& r.0 * (abs(x.denom as int) * abs(y.denom as int)) == r.1 * (x.num * abs(
                y.denom as int,
            ) + y.num * abs(x.denom as int))
            &&& x.denom > 0 && y.denom > 0 ==> r.0 * (x.denom * y.denom) == r.1 * (x.num * y.denom
                + y.num * x.denom)
        }),
{
    lemma_add_terms_value(x, y);
    let t = x.spec_add_terms(y);
    let r = normalize(t.0, t.1);
    let p = abs(x.denom as int) * abs(y.denom as int);
    let sv = x.num * abs(y.denom as int) + y.num * abs(x.denom as int);
    if t.0 == 0 {
        assert(sv == 0) by (nonlinear_arith)
            requires
                t.0 * p == t.1 * sv,
                t.0 == 0,
                t.1 > 0,
        ;
    } else {
        lemma_normalize_value(t.0, t.1);
        assert(r.0 * p == r.1 * sv) by (nonlinear_arith)
            requires
                r.0 * t.1 == t.0 * r.1,
                t.0 * p == t.1 * sv,
                t.1 > 0,
        {
            assert(r.0 * t.1 * p == t.0 * r.1 * p);
            assert(t.0 * r.1 * p == r.1 * (t.0 * p));
            assert(r.1 * (t.0 * p) == r.1 * (t.1 * sv));
            assert(r.0 * p * t.1 == r.1 * sv * t.1);
        }
    }
}

/// A normalized fraction with a positive denominator has the value of the fraction it came from.
pub proof fn lemma_normalize_value(num: int, denom: int)
    requires
        num != 0,
        denom != 0,
    ensures
        normalize(num, denom).1 > 0,
        normalize(num, denom).0 * denom == num * normalize(num, denom).1,
{
    let n = if denom < 0 { -num } else { num };
    let d = if denom < 0 { -denom } else { denom };
    lemma_gcd_bounds(abs(n) as nat, d as nat);
    let g = spec_gcd(abs(n) as nat, d as nat) as int;
    let k1 = choose|k: int| #[trigger] (g * k) == abs(n);
    let k2 = choose|k: int| #[trigger] (g * k) == d;
    let kn = if n < 0 { -k1 } else { k1 };
    assert(g * kn == n) by (nonlinear_arith)
        requires
            g * k1 == abs(n),
            kn == (if n < 0 { -k1 } else { k1 }),
            abs(n) == (if n < 0 { -n } else { n }),
    ;
    lemma_exact_div(g, kn);
    lemma_exact_div(g, k2);
    assert(k2 > 0) by (nonlinear_arith)
        requires
            g * k2 == d,
            g > 0,
            d > 0,
    ;
    assert(kn * denom == num * k2) by (nonlinear_arith)
        requires
            g * kn == n,
            g * k2 == d,
            g > 0,
            n == (if denom < 0 { -num } else { num }),
            d == (if denom < 0 { -denom } else { denom }),
    ;
}

/// Normalizing never enlarges the magnitudes of the numerator and the denominator.
pub proof fn lemma_normalize_bound(num: int, denom: int)
    requires
        denom != 0,
    ensures
        abs(normalize(num, denom).0) <= abs(num),
        abs(normalize(num, denom).1) <= abs(denom),
        normalize(num, denom).1 >= 1,
{
    if num != 0 {
        let n = if denom < 0 { -num } else { num };
        let d = if denom < 0 { -denom } else { denom };
        lemma_gcd_bounds(abs(n) as nat, d as nat);
        lemma_normalize_value(num, denom);
        let g = spec_gcd(abs(n) as nat, d as nat) as int;
        assert(abs(n / g) <= abs(n)) by (nonlinear_arith)
            requires
                g >= 1,
        ;
        assert(d / g <= d) by (nonlinear_arith)
            requires
                g >= 1,
                d > 0,
        ;
    }
}

} // verus!
