//! Greatest common divisors and Bezout coefficients.
use vstd::prelude::*;

verus! {

/// Euclid's greatest common divisor.
pub open spec fn spec_gcd(a: nat, b: nat) -> nat
    decreases b,
{
    if b == 0 {
        a
    } else {
        spec_gcd(b, a % b)
    }
}

/// `d` divides `x`.
pub open spec fn divides(d: int, x: int) -> bool {
    exists|k: int| #[trigger] (d * k) == x
}

/// The greatest common divisor of `a` and `b`, by Euclid's algorithm.
pub fn gcd(a: u64, b: u64) -> (r: u64)
    ensures
        r == spec_gcd(a as nat, b as nat),
    decreases b,
{
    if b == 0 {
        a
    } else {
        gcd(b, a % b)
    }
}

/// The gcd does not depend on the order of its arguments.
pub proof fn lemma_gcd_symmetric(a: nat, b: nat)
    ensures
        spec_gcd(a, b) == spec_gcd(b, a),
{
    if a == 0 || b == 0 {
    } else if a < b {
        assert(a % b == a) by (nonlinear_arith)
            requires
                a < b,
        ;
    } else if a > b {
        assert(b % a == b) by (nonlinear_arith)
            requires
                b < a,
        ;
    }
}

/// The gcd divides both arguments.
pub proof fn lemma_gcd_divides(a: nat, b: nat)
    ensures
        divides(spec_gcd(a, b) as int, a as int),
        divides(spec_gcd(a, b) as int, b as int),
    decreases b,
{
    let g = spec_gcd(a, b) as int;
    if b == 0 {
        assert(g * 1 == a);
        assert(g * 0 == 0);
    } else {
        lemma_gcd_divides(b, a % b);
        let k1 = choose|k: int| #[trigger] (g * k) == b as int;
        let k2 = choose|k: int| #[trigger] (g * k) == (a % b) as int;
        let q = (a / b) as int;
        assert(a == b * q + (a % b)) by (nonlinear_arith)
            requires
                b > 0,
                q == a / b,
        ;
        assert(g * (k1 * q + k2) == a) by (nonlinear_arith)
            requires
                g * k1 == b,
                g * k2 == a % b,
                a == b * q + (a % b),
        ;
    }
}

/// Every common divisor divides the gcd.
pub proof fn lemma_gcd_greatest(a: nat, b: nat, d: int)
    requires
        divides(d, a as int),
        divides(d, b as int),
    ensures
        divides(d, spec_gcd(a, b) as int),
    decreases b,
{
    if b > 0 {
        let ka = choose|k: int| #[trigger] (d * k) == a as int;
        let kb = choose|k: int| #[trigger] (d * k) == b as int;
        let q = (a / b) as int;
        assert(a == b * q + (a % b)) by (nonlinear_arith)
            requires
                b > 0,
                q == a / b,
        ;
        assert(d * (ka - kb * q) == (a % b) as int) by (nonlinear_arith)
            requires
                d * ka == a,
                d * kb == b,
                a == b * q + (a % b),
        ;
        lemma_gcd_greatest(b, a % b, d);
    }
}

/// The Bezout coefficients computed by the extended Euclidean algorithm.
pub open spec fn spec_ext_gcd(a: nat, b: nat) -> (int, int)
    decreases a,
{
    if a == 0 {
        (0, 1)
    } else {
        let (x, y) = spec_ext_gcd(b % a, a);
        (y - (b / a) * x, x)
    }
}

/// The coefficients of the extended Euclidean algorithm satisfy Bezout's identity.
pub proof fn lemma_bezout(a: nat, b: nat)
    ensures
        a * spec_ext_gcd(a, b).0 + b * spec_ext_gcd(a, b).1 == spec_gcd(a, b),
    decreases a,
{
    if a == 0 {
        lemma_gcd_symmetric(0, b);
    } else {
        let r = b % a;
        let q = b / a;
        lemma_bezout(r, a);
        let (x, y) = spec_ext_gcd(r, a);
        assert(b == a * q + r) by (nonlinear_arith)
            requires
                a > 0,
                q == b / a,
                r == b % a,
        ;
        assert(a * (y - q * x) + b * x == r * x + a * y) by (nonlinear_arith)
            requires
                b == a * q + r,
        ;
        lemma_gcd_symmetric(a, b);
        lemma_gcd_symmetric(r, a);
        assert(spec_gcd(b, a) == spec_gcd(a, r));
    }
}

/// Bezout coefficients: `(p, q)` with `a * p + b * q == gcd(a, b)`.
pub fn ext_gcd(a: i64, b: i64) -> (pq: (i64, i64))
    requires
        0 <= a,
        0 <= b,
    ensures
        a * pq.0 + b * pq.1 == spec_gcd(a as nat, b as nat),
        -(if b > 1 { b as int } else { 1 }) <= pq.0 <= (if b > 1 { b as int } else { 1 }),
        -(if a > 1 { a as int } else { 1 }) <= pq.1 <= (if a > 1 { a as int } else { 1 }),
        a == 0 ==> pq == (0i64, 1i64),
        pq.0 == spec_ext_gcd(a as nat, b as nat).0,
        pq.1 == spec_ext_gcd(a as nat, b as nat).1,
    decreases a,
{
    if a == 0 {
        proof {
            lemma_gcd_symmetric(0, b as nat);
        }
        return (0, 1);
    }
    let r = b % a;
    let (x, y) = ext_gcd(r, a);
    let q = b / a;
    proof {
        assert(b == a * q + r) by (nonlinear_arith)
            requires
                a > 0,
                q == b / a,
                r == b % a,
        ;
        assert(0 <= r < a) by (nonlinear_arith)
            requires
                a > 0,
                r == b % a,
        ;
        assert(q * a <= b) by (nonlinear_arith)
            requires
                b == a * q + r,
                0 <= r,
        ;
        assert(-(q * a) <= q * x <= q * a) by (nonlinear_arith)
            requires
                -a <= x <= a,
                q >= 0,
        ;
        if r == 0 {
            assert(x == 0 && y == 1);
        }
        assert(a * (y - q * x) + b * x == r * x + a * y) by (nonlinear_arith)
            requires
                b == a * q + r,
        ;
        lemma_gcd_symmetric(a as nat, b as nat);
        lemma_gcd_symmetric(r as nat, a as nat);
        assert(spec_gcd(b as nat, a as nat) == spec_gcd(a as nat, r as nat));
    }
    (y - q * x, x)
}

/// For a positive `m`, `x % m == 0` exactly when `m` divides `x`.
pub proof fn lemma_mod_zero_divides(x: int, m: int)
    requires
        m > 0,
    ensures
        (x % m == 0) <==> divides(m, x),
{
    vstd::arithmetic::div_mod::lemma_fundamental_div_mod(x, m);
    if x % m == 0 {
        assert(m * (x / m) == x);
    }
    if divides(m, x) {
        let k = choose|k: int| #[trigger] (m * k) == x;
        vstd::arithmetic::div_mod::lemma_mod_multiples_basic(k, m);
        assert(k * m == m * k) by (nonlinear_arith);
    }
}

/// What divides two values divides every combination of them.
pub proof fn lemma_divides_combination(d: int, a: int, b: int, s: int, t: int)
    requires
        divides(d, a),
        divides(d, b),
    ensures
        divides(d, a * s + b * t),
{
    let ka = choose|k: int| #[trigger] (d * k) == a;
    let kb = choose|k: int| #[trigger] (d * k) == b;
    assert(d * (ka * s + kb * t) == a * s + b * t) by (nonlinear_arith)
        requires
            d * ka == a,
            d * kb == b,
    ;
}

/// The least common multiple `m1 * (m2 / g)` divides every common multiple of `m1` and `m2`.
pub proof fn lemma_lcm_divides(m1: int, m2: int, g: int, p: int, q: int, y: int)
    requires
        m1 >= 1,
        m2 >= 1,
        g >= 1,
        divides(g, m1),
        divides(g, m2),
        m1 * p + m2 * q == g,
        divides(m1, y),
        divides(m2, y),
    ensures
        divides(m1 * (m2 / g), y),
{
    let a1 = choose|k: int| #[trigger] (g * k) == m1;
    let a2 = choose|k: int| #[trigger] (g * k) == m2;
    let b1 = choose|k: int| #[trigger] (m1 * k) == y;
    let b2 = choose|k: int| #[trigger] (m2 * k) == y;
    vstd::arithmetic::div_mod::lemma_div_multiples_vanish(a2, g);
    assert(m2 / g == a2);
    let z = p * b2 + q * b1;
    assert((m1 * p) * y == (m1 * m2) * (p * b2)) by (nonlinear_arith)
        requires
            y == m2 * b2,
    ;
    assert((m2 * q) * y == (m1 * m2) * (q * b1)) by (nonlinear_arith)
        requires
            y == m1 * b1,
    ;
    assert((m1 * m2) * (p * b2) + (m1 * m2) * (q * b1) == (m1 * m2) * z) by (nonlinear_arith)
        requires
            z == p * b2 + q * b1,
    ;
    assert((m1 * p) * y + (m2 * q) * y == (m1 * p + m2 * q) * y) by (nonlinear_arith);
    assert(m1 * m2 * z == g * y);
    assert(m1 * m2 * z == g * (m1 * a2 * z)) by (nonlinear_arith)
        requires
            m2 == g * a2,
    ;
    assert(m1 * a2 * z == y) by (nonlinear_arith)
        requires
            g * (m1 * a2 * z) == g * y,
            g >= 1,
    ;
    assert(m1 * (m2 / g) * z == y);
}

/// Divisibility is transitive.
pub proof fn lemma_divides_trans(a: int, b: int, c: int)
    requires
        divides(a, b),
        divides(b, c),
    ensures
        divides(a, c),
{
    let k1 = choose|k: int| #[trigger] (a * k) == b;
    let k2 = choose|k: int| #[trigger] (b * k) == c;
    assert(a * (k1 * k2) == c) by (nonlinear_arith)
        requires
            a * k1 == b,
            b * k2 == c,
    ;
}

/// The arithmetic behind one step of the Chinese remainder construction: with `t` the
/// residue of `k * p` modulo `m2 / g`, `m1 * t - g * k` is a multiple of `m2`.
proof fn lemma_crt_step(
    m1: int,
    m2: int,
    g: int,
    p: int,
    q: int,
    k: int,
    mp: int,
    a1: int,
    ka: int,
    pa: int,
    c1: int,
    c2: int,
    c3: int,
    t: int,
)
    requires
        k == mp * c1 + ka,
        p == mp * c2 + pa,
        ka * pa == mp * c3 + t,
        m2 == g * mp,
        m1 == g * a1,
        m1 * p + m2 * q == g,
    ensures
        divides(m2, m1 * t - g * k),
{
    let e = c1 * pa + c2 * k + c3;
    assert(ka * pa == k * p - mp * (c1 * pa + c2 * k)) by (nonlinear_arith)
        requires
            k == mp * c1 + ka,
            p == mp * c2 + pa,
    ;
    assert(t == k * p - mp * e) by (nonlinear_arith)
        requires
            ka * pa == k * p - mp * (c1 * pa + c2 * k),
            ka * pa == mp * c3 + t,
            e == c1 * pa + c2 * k + c3,
    ;
    assert(m1 * t == m1 * (k * p) - m1 * mp * e) by (nonlinear_arith)
        requires
            t == k * p - mp * e,
    ;
    assert(m1 * (k * p) == k * g - m2 * (k * q)) by (nonlinear_arith)
        requires
            m1 * p + m2 * q == g,
    ;
    assert(m1 * mp * e == m2 * (a1 * e)) by (nonlinear_arith)
        requires
            m1 == g * a1,
            m2 == g * mp,
    ;
    assert(k * g == g * k) by (nonlinear_arith);
    assert(m2 * (-(k * q) - a1 * e) == -(m2 * (k * q)) - m2 * (a1 * e)) by (nonlinear_arith);
    assert(m2 * (-(k * q) - a1 * e) == m1 * t - g * k);
}

/// The solution `(lcm, x)` of `x = r1 (mod m1)` and `x = r2 (mod m2)`, with `0 <= x < lcm`,
/// when one exists: when `gcd(m1, m2)` divides `r2 - r1`.
fn chinese_rem_elem2(m1: i64, r1: i64, m2: i64, r2: i64) -> (r: Option<(i64, i64)>)
    requires
        1 <= m1,
        1 <= m2,
        m1 * ((m2 as int) / (spec_gcd(m1 as nat, m2 as nat) as int)) <= i64::MAX,
        0 <= r1 < m1,
    ensures
        r is Some <==> divides(spec_gcd(m1 as nat, m2 as nat) as int, r2 - r1),
        r matches Some(lx) ==> {
            &&& lx.0 == m1 * ((m2 as int) / (spec_gcd(m1 as nat, m2 as nat) as int))
            &&& 0 <= lx.1 < lx.0
            &&& divides(m1 as int, lx.1 - r1)
            &&& divides(m2 as int, lx.1 - r2)
            &&& forall|y: int|
                (divides(m1 as int, y - r1) && divides(m2 as int, y - r2)) <==> #[trigger] divides(lx.0 as int, y - lx.1)
        },
{
    let (p, q) = ext_gcd(m1, m2);
    let gu = gcd(m1 as u64, m2 as u64);
    let ghost gs = spec_gcd(m1 as nat, m2 as nat) as int;
    proof {
        lemma_gcd_divides(m1 as nat, m2 as nat);
        let k1 = choose|k: int| #[trigger] (gs * k) == m1 as int;
        let k2 = choose|k: int| #[trigger] (gs * k) == m2 as int;
        assert(gs >= 1 && gs <= m1 && gs <= m2) by (nonlinear_arith)
            requires
                gs >= 0,
                gs * k1 == m1,
                gs * k2 == m2,
                m1 >= 1,
                m2 >= 1,
        ;
    }
    let g = gu as i64;
    let diff: i128 = r2 as i128 - r1 as i128;
    let dm = diff.checked_rem_euclid(g as i128).unwrap();
    proof {
        lemma_mod_zero_divides(diff as int, g as int);
    }
    if dm != 0 {
        return None;
    }
    proof {
        vstd::arithmetic::div_mod::lemma_fundamental_div_mod(diff as int, g as int);
        let dq = (diff as int) / (g as int);
        assert(-0x1_0000_0000_0000_0000 <= dq <= 0x1_0000_0000_0000_0000) by (nonlinear_arith)
            requires
                diff == g * dq,
                g >= 1,
                -0x1_0000_0000_0000_0000 <= diff <= 0x1_0000_0000_0000_0000,
        ;
    }
    let k = diff.checked_div_euclid(g as i128).unwrap();
    let mp = m2 / g;
    proof {
        lemma_mod_zero_divides(m2 as int, g as int);
        vstd::arithmetic::div_mod::lemma_fundamental_div_mod(m2 as int, g as int);
        vstd::arithmetic::div_mod::lemma_fundamental_div_mod(diff as int, g as int);
        assert(m2 == g * mp);
        assert(diff == g * k);
        assert(1 <= mp <= m2) by (nonlinear_arith)
            requires
                m2 == g * mp,
                g >= 1,
                m2 >= 1,
        ;
        assert(mp == (m2 as int) / gs);
    }
    let lcm = m1 * mp;
    let ka = k.checked_rem_euclid(mp as i128).unwrap();
    let pa = (p as i128).checked_rem_euclid(mp as i128).unwrap();
    proof {
        assert(0 <= ka * pa < mp * mp) by (nonlinear_arith)
            requires
                0 <= ka < mp,
                0 <= pa < mp,
        ;
        assert(mp * mp <= 0x7fff_ffff_ffff_ffff * 0x7fff_ffff_ffff_ffffint) by (nonlinear_arith)
            requires
                1 <= mp <= 0x7fff_ffff_ffff_ffff,
        ;
    }
    let prod: i128 = ka * pa;
    let t = prod.checked_rem_euclid(mp as i128).unwrap();
    proof {
        assert(m1 * t <= m1 * (mp - 1)) by (nonlinear_arith)
            requires
                0 <= t < mp,
                m1 >= 1,
        ;
        assert(m1 * (mp - 1) == m1 * mp - m1) by (nonlinear_arith);
    }
    let x128: i128 = r1 as i128 + (m1 as i128) * t;
    let x = x128 as i64;
    proof {
        assert(0 <= x128 < lcm);
        // x - r1 is a multiple of m1.
        assert(m1 * t == x - r1);
        // x - r2 is a multiple of m2.
        vstd::arithmetic::div_mod::lemma_fundamental_div_mod(k as int, mp as int);
        vstd::arithmetic::div_mod::lemma_fundamental_div_mod(p as int, mp as int);
        vstd::arithmetic::div_mod::lemma_fundamental_div_mod(prod as int, mp as int);
        let c1 = (k as int) / (mp as int);
        let c2 = (p as int) / (mp as int);
        let c3 = (prod as int) / (mp as int);
        let a1 = choose|kk: int| #[trigger] (gs * kk) == m1 as int;
        lemma_crt_step(m1 as int, m2 as int, g as int, p as int, q as int, k as int, mp as int, a1, ka as int, pa as int, c1, c2, c3, t as int);
        assert(divides(m2 as int, m1 * t - g * k));
        assert(divides(m1 as int, x - r1)) by {
            assert(m1 * t == x - r1);
        }
        assert(m1 * mp == a1 * m2) by (nonlinear_arith)
            requires
                m1 == g * a1,
                m2 == g * mp,
        ;
        assert(divides(m1 as int, lcm as int)) by {
            assert(m1 * mp == lcm);
        }
        assert(divides(m2 as int, lcm as int)) by {
            assert(m2 * a1 == lcm) by (nonlinear_arith)
                requires
                    m1 * mp == a1 * m2,
                    lcm == m1 * mp,
            ;
        }
        assert forall|y: int|
            (divides(m1 as int, y - r1) && divides(m2 as int, y - r2)) <==> #[trigger] divides(lcm as int, y - x) by {
            if divides(m1 as int, y - r1) && divides(m2 as int, y - r2) {
                lemma_divides_combination(m1 as int, y - r1, x - r1, 1, -1);
                lemma_divides_combination(m2 as int, y - r2, x - r2, 1, -1);
                lemma_lcm_divides(m1 as int, m2 as int, g as int, p as int, q as int, y - x);
            }
            if divides(lcm as int, y - x) {
                lemma_divides_trans(m1 as int, lcm as int, y - x);
                lemma_divides_trans(m2 as int, lcm as int, y - x);
                lemma_divides_combination(m1 as int, y - x, x - r1, 1, 1);
                lemma_divides_combination(m2 as int, y - x, x - r2, 1, 1);
            }
        }
    }
    Some((lcm, x))
}

/// `y` satisfies every congruence `y = rems[i] (mod mods[i])`.
pub open spec fn solves(y: int, mods: Seq<i64>, rems: Seq<i64>) -> bool {
    forall|i: int| 0 <= i < mods.len() ==> #[trigger] divides(mods[i] as int, y - rems[i])
}

/// The least common multiple of the moduli, folded from the left as `l * (m / gcd(l, m))`.
pub open spec fn lcm_all(mods: Seq<i64>) -> int
    decreases mods.len(),
{
    if mods.len() == 0 {
        1
    } else {
        let l = lcm_all(mods.drop_last());
        l * ((mods.last() as int) / (spec_gcd(l as nat, mods.last() as nat) as int))
    }
}

/// A factor `m / gcd(l, m)` of a positive `m` is at least 1.
proof fn lemma_lcm_factor(l: int, m: int)
    requires
        l >= 1,
        m >= 1,
    ensures
        1 <= m / (spec_gcd(l as nat, m as nat) as int) <= m,
        l <= l * (m / (spec_gcd(l as nat, m as nat) as int)),
{
    let g = spec_gcd(l as nat, m as nat) as int;
    lemma_gcd_divides(l as nat, m as nat);
    let k = choose|k: int| #[trigger] (g * k) == m;
    assert(g >= 1 && k >= 1 && k <= m) by (nonlinear_arith)
        requires
            g >= 0,
            g * k == m,
            m >= 1,
    ;
    vstd::arithmetic::div_mod::lemma_div_multiples_vanish(k, g);
    assert(k * g == g * k) by (nonlinear_arith);
    assert(m / g == k);
    assert(l <= l * k) by (nonlinear_arith)
        requires
            l >= 1,
            k >= 1,
    ;
}

/// With positive moduli, the lcm of a prefix is positive and at most the lcm of all.
proof fn lemma_lcm_prefix(mods: Seq<i64>, j: int)
    requires
        0 <= j <= mods.len(),
        forall|i: int| 0 <= i < mods.len() ==> #[trigger] mods[i] >= 1,
    ensures
        1 <= lcm_all(mods.take(j)) <= lcm_all(mods),
    decreases mods.len() - j,
{
    if j == mods.len() {
        assert(mods.take(j) =~= mods);
        lemma_lcm_positive(mods);
    } else {
        lemma_lcm_prefix(mods, j + 1);
        let t = mods.take(j + 1);
        assert(t.drop_last() =~= mods.take(j));
        lemma_lcm_positive(mods.take(j));
        lemma_lcm_factor(lcm_all(mods.take(j)), mods[j] as int);
    }
}

proof fn lemma_lcm_positive(mods: Seq<i64>)
    requires
        forall|i: int| 0 <= i < mods.len() ==> #[trigger] mods[i] >= 1,
    ensures
        lcm_all(mods) >= 1,
    decreases mods.len(),
{
    if mods.len() > 0 {
        let d = mods.drop_last();
        assert forall|i: int| 0 <= i < d.len() implies #[trigger] d[i] >= 1 by {
            assert(d[i] == mods[i]);
        }
        lemma_lcm_positive(d);
        assert(mods.last() >= 1);
        lemma_lcm_factor(lcm_all(d), mods.last() as int);
    }
}

/// Chinese remainder theorem: when the congruences `x = rems[i] (mod mods[i])` have a common
/// solution, returns `(lcm of the moduli, the least non-negative solution)`; every solution is
/// that one plus a multiple of the lcm. Returns `None` when there is none.
pub fn chinese_rem(mods: &[i64], rems: &[i64]) -> (r: Option<(i64, i64)>)
    requires
        mods@.len() == rems@.len(),
        forall|i: int| 0 <= i < mods@.len() ==> #[trigger] mods@[i] >= 1,
        lcm_all(mods@) <= i64::MAX,
    ensures
        r is Some <==> exists|y: int| #[trigger] solves(y, mods@, rems@),
        r matches Some(lx) ==> {
            &&& lx.0 == lcm_all(mods@)
            &&& 0 <= lx.1 < lx.0
            &&& forall|y: int| #[trigger] solves(y, mods@, rems@) <==> divides(lx.0 as int, y - lx.1)
        },
{
    let mut lcm: i64 = 1;
    let mut rem: i64 = 0;
    let n = mods.len();
    proof {
        lemma_lcm_positive(mods@);
        assert(mods@.take(0) =~= Seq::<i64>::empty());
        assert forall|y: int| solves(y, mods@.take(0), rems@.take(0)) <==> divides(1, y - 0) by {
            assert(1 * (y - 0) == y - 0);
        }
    }
    let mut i: usize = 0;
    while i < n
        invariant
            i <= n,
            n == mods@.len(),
            n == rems@.len(),
            forall|j: int| 0 <= j < mods@.len() ==> #[trigger] mods@[j] >= 1,
            lcm_all(mods@) <= i64::MAX,
            lcm == lcm_all(mods@.take(i as int)),
            1 <= lcm <= lcm_all(mods@),
            0 <= rem < lcm,
            forall|y: int| #[trigger] solves(y, mods@.take(i as int), rems@.take(i as int)) <==> divides(lcm as int, y - rem),
        decreases n - i,
    {
        let m = mods[i];
        let rr = rems[i];
        let ghost ti = mods@.take(i as int);
        let ghost t1 = mods@.take(i + 1);
        proof {
            lemma_lcm_prefix(mods@, i + 1);
            assert(t1.drop_last() =~= ti);
            assert(t1.last() == m);
        }
        match chinese_rem_elem2(lcm, rem, m, rr) {
            None => {
                proof {
                    let g = spec_gcd(lcm as nat, m as nat) as int;
                    lemma_gcd_divides(lcm as nat, m as nat);
                    if exists|y: int| #[trigger] solves(y, mods@, rems@) {
                        let y = choose|y: int| #[trigger] solves(y, mods@, rems@);
                        assert(solves(y, ti, rems@.take(i as int))) by {
                            assert forall|j: int| 0 <= j < ti.len() implies #[trigger] divides(ti[j] as int, y - rems@.take(i as int)[j]) by {
                                assert(divides(mods@[j] as int, y - rems@[j]));
                            }
                        }
                        assert(divides(m as int, y - rr)) by {
                            assert(divides(mods@[i as int] as int, y - rems@[i as int]));
                        }
                        lemma_divides_trans(g, lcm as int, y - rem);
                        lemma_divides_trans(g, m as int, y - rr);
                        lemma_divides_combination(g, y - rem, y - rr, 1, -1);
                    }
                }
                return None;
            },
            Some((nl, nr)) => {
                proof {
                    let g = spec_gcd(lcm as nat, m as nat) as int;
                    lemma_gcd_divides(lcm as nat, m as nat);
                    assert(lcm_all(t1) == nl);
                    let r1 = rems@.take(i + 1);
                    assert forall|y: int| #[trigger] solves(y, t1, r1) <==> divides(nl as int, y - nr) by {
                        if solves(y, t1, r1) {
                            assert(solves(y, ti, rems@.take(i as int))) by {
                                assert forall|j: int| 0 <= j < ti.len() implies #[trigger] divides(ti[j] as int, y - rems@.take(i as int)[j]) by {
                                    assert(divides(t1[j] as int, y - r1[j]));
                                }
                            }
                            assert(divides(t1[i as int] as int, y - r1[i as int]));
                        }
                        if divides(nl as int, y - nr) {
                            assert(divides(lcm as int, y - rem) && divides(m as int, y - rr));
                            assert(solves(y, ti, rems@.take(i as int)));
                            assert forall|j: int| 0 <= j < t1.len() implies #[trigger] divides(t1[j] as int, y - r1[j]) by {
                                if j < i {
                                    assert(divides(ti[j] as int, y - rems@.take(i as int)[j]));
                                }
                            }
                        }
                    }
                }
                lcm = nl;
                rem = nr;
            },
        }
        i = i + 1;
    }
    proof {
        assert(mods@.take(n as int) =~= mods@);
        assert(rems@.take(n as int) =~= rems@);
        assert(divides(lcm as int, rem - rem)) by {
            assert(lcm * 0 == 0);
        }
        assert(solves(rem as int, mods@, rems@));
    }
    Some((lcm, rem))
}

} // verus!
