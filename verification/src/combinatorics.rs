//! Factorials, binomial coefficients and permutation counts modulo `MOD`.
use vstd::prelude::*;
use crate::gcd::{spec_ext_gcd, spec_gcd, divides, lemma_bezout, lemma_gcd_divides, lemma_mod_zero_divides};
use vstd::arithmetic::div_mod::{lemma_mul_mod_noop_general, lemma_mod_multiples_vanish, lemma_small_mod};
use crate::modint::{ModInt, MAX_MODULUS};

verus! {

/// `i!` modulo `m`, with `0! = 1! = 1`.
pub open spec fn fact_mod(i: nat, m: int) -> int
    decreases i,
{
    if i <= 1 {
        1int % m
    } else {
        (fact_mod((i - 1) as nat, m) * (i as int % m)) % m
    }
}

/// The inverse of `i` modulo `m` computed through Bezout coefficients.
pub open spec fn inv_mod(i: int, m: int) -> int {
    spec_ext_gcd((i % m) as nat, m as nat).0 % m
}

/// The product of the inverses of `2, ..., i` modulo `m`: the inverse of `i!` when `m` is
/// a prime above `i`.
pub open spec fn fact_inv_mod(i: nat, m: int) -> int
    decreases i,
{
    if i <= 1 {
        1int % m
    } else {
        (fact_inv_mod((i - 1) as nat, m) * inv_mod(i as int, m)) % m
    }
}

/// The table that `factorial_impl` keeps: entry `i` is the running product up to `i`.
pub open spec fn memo_valid(memo: Seq<usize>, m: int, inverse: bool) -> bool {
    forall|i: int|
        0 <= i < memo.len() ==> #[trigger] memo[i] == if inverse {
            fact_inv_mod(i as nat, m)
        } else {
            fact_mod(i as nat, m)
        }
}

/// Entry `p` of the running-product table, extending `memo` as far as `p + 1`.
/// With `inverse` the table holds products of inverses, otherwise factorials.
pub fn factorial_impl<const MOD: u64>(p: usize, memo: &mut Vec<usize>, inverse: bool) -> (r:
    ModInt<MOD>)
    requires
        ModInt::<MOD>::valid_modulus(),
        p < i64::MAX,
        p + 2 <= usize::MAX,
        memo_valid(old(memo)@, MOD as int, inverse),
    ensures
        memo_valid(final(memo)@, MOD as int, inverse),
        final(memo)@.len() >= p + 2,
        final(memo)@.len() >= old(memo)@.len(),
        r@ == if inverse {
            fact_inv_mod(p as nat, MOD as int)
        } else {
            fact_mod(p as nat, MOD as int)
        },
{
    let ghost m = MOD as int;
    let ghost len0 = memo.len();
    while memo.len() < 2
        invariant
            memo.len() >= len0,
            memo_valid(memo@, m, inverse),
            m == MOD,
            ModInt::<MOD>::valid_modulus(),
        decreases 2 - memo.len(),
    {
        memo.push(1);
        assert(1int % m == 1) by (nonlinear_arith)
            requires
                m >= 2,
        ;
    }
    while memo.len() <= p + 1
        invariant
            memo.len() >= len0,
            p + 2 <= usize::MAX,
            memo_valid(memo@, m, inverse),
            memo.len() >= 2,
            m == MOD,
            p < i64::MAX,
            ModInt::<MOD>::valid_modulus(),
        decreases p + 2 - memo.len(),
    {
        let i = memo.len();
        let last = memo[i - 1];
        assert(last < MOD);
        let last_val = ModInt::<MOD>::from_usize(last);
        let iv = ModInt::<MOD>::from_usize(i);
        let next = if inverse {
            last_val.div(iv)
        } else {
            last_val.mul(iv)
        };
        let nv = next.into_usize();
        memo.push(nv);
        proof {
            assert(0 <= last < m);
            vstd::arithmetic::div_mod::lemma_small_mod(last as nat, m as nat);
            assert(0 <= next@ < m) by (nonlinear_arith)
                requires
                    next@ == (if inverse { last_val@ * (spec_ext_gcd(iv@ as nat, m as nat).0 % m) } else { last_val@ * iv@ }) % m,
                    m >= 2,
            ;
            assert(next@ <= MAX_MODULUS);
            assert(nv == next@);
            assert(memo@[i as int] == if inverse {
                fact_inv_mod(i as nat, m)
            } else {
                fact_mod(i as nat, m)
            });
        }
    }
    let v = memo[p];
    proof {
        if inverse {
            assert(0 <= fact_inv_mod(p as nat, m) < m) by {
                lemma_fact_range(p as nat, m);
            }
        } else {
            assert(0 <= fact_mod(p as nat, m) < m) by {
                lemma_fact_range(p as nat, m);
            }
        }
    }
    let r = ModInt::<MOD>::from_usize(v);
    proof {
        vstd::arithmetic::div_mod::lemma_small_mod(v as nat, m as nat);
    }
    r
}

proof fn lemma_fact_range(i: nat, m: int)
    requires
        m >= 2,
    ensures
        0 <= fact_mod(i, m) < m,
        0 <= fact_inv_mod(i, m) < m,
    decreases i,
{
    if i > 1 {
        lemma_fact_range((i - 1) as nat, m);
    }
    assert(0 <= fact_mod(i, m) < m) by (nonlinear_arith)
        requires
            m >= 2,
            fact_mod(i, m) == (if i <= 1 { 1int % m } else { (fact_mod((i - 1) as nat, m) * (i as int % m)) % m }),
    ;
    assert(0 <= fact_inv_mod(i, m) < m) by (nonlinear_arith)
        requires
            m >= 2,
            fact_inv_mod(i, m) == (if i <= 1 { 1int % m } else { (fact_inv_mod((i - 1) as nat, m) * inv_mod(i as int, m)) % m }),
    ;
}

/// `p!` modulo `MOD`.
pub fn factorial<const MOD: u64>(p: usize) -> (r: ModInt<MOD>)
    requires
        ModInt::<MOD>::valid_modulus(),
        p < i64::MAX,
        p + 2 <= usize::MAX,
    ensures
        r@ == fact_mod(p as nat, MOD as int),
{
    let mut memo: Vec<usize> = Vec::new();
    factorial_impl(p, &mut memo, false)
}

/// The product of the inverses of `2, ..., p` modulo `MOD` (the inverse of `p!` when
/// `MOD` is a prime above `p`).
pub fn factorial_inv<const MOD: u64>(p: usize) -> (r: ModInt<MOD>)
    requires
        ModInt::<MOD>::valid_modulus(),
        p < i64::MAX,
        p + 2 <= usize::MAX,
    ensures
        r@ == fact_inv_mod(p as nat, MOD as int),
{
    let mut memo: Vec<usize> = Vec::new();
    factorial_impl(p, &mut memo, true)
}

/// `m` is a prime: at least 2 and divisible by no number strictly between 1 and itself.
pub open spec fn is_prime(m: int) -> bool {
    &&& m >= 2
    &&& forall|d: int| 2 <= d < m ==> #[trigger] (m % d) != 0
}

/// `j!`, exactly.
pub open spec fn fact(j: nat) -> nat
    decreases j,
{
    if j == 0 {
        1
    } else {
        j * fact((j - 1) as nat)
    }
}

/// The falling factorial `n * (n - 1) * ... * (n - k + 1)` (`1` for `k == 0`): the number
/// of ways to arrange `k` of `n` distinct items in a row.
pub open spec fn falling(n: int, k: nat) -> int
    decreases k,
{
    if k == 0 {
        1
    } else {
        falling(n, (k - 1) as nat) * (n - k + 1)
    }
}

/// The factorial table modulo `m` holds `j! mod m`.
proof fn lemma_fact_mod_exact(j: nat, m: int)
    requires
        m >= 2,
    ensures
        fact_mod(j, m) == (fact(j) as int) % m,
    decreases j,
{
    if j <= 1 {
        assert(fact(0) == 1);
        assert(fact(1) == 1 * fact(0));
    } else {
        lemma_fact_mod_exact((j - 1) as nat, m);
        let f = fact((j - 1) as nat) as int;
        lemma_mul_mod_noop_general(f, j as int, m);
        assert(fact(j) as int == f * (j as int)) by (nonlinear_arith)
            requires
                fact(j) == j * fact((j - 1) as nat),
                f == fact((j - 1) as nat),
        ;
    }
}

/// Below a prime `m`, `inv_mod(i, m)` is the inverse of `i`.
proof fn lemma_inv_mod_prime(i: int, m: int)
    requires
        is_prime(m),
        1 <= i < m,
    ensures
        (inv_mod(i, m) * i) % m == 1,
{
    lemma_small_mod(i as nat, m as nat);
    let g = spec_gcd(i as nat, m as nat) as int;
    lemma_gcd_divides(i as nat, m as nat);
    let ki = choose|k: int| #[trigger] (g * k) == i;
    assert(1 <= g <= i) by (nonlinear_arith)
        requires
            g * ki == i,
            i >= 1,
            g >= 0,
    ;
    if g >= 2 {
        lemma_mod_zero_divides(m, g);
        assert(m % g != 0);
        assert(false);
    }
    lemma_bezout(i as nat, m as nat);
    let (x, y) = spec_ext_gcd(i as nat, m as nat);
    assert(i * x + m * y == 1);
    lemma_mul_mod_noop_general(x, i, m);
    assert(x * i == m * (-y) + 1) by (nonlinear_arith)
        requires
            i * x + m * y == 1,
    ;
    lemma_mod_multiples_vanish(-y, 1, m);
    lemma_small_mod(1, m as nat);
}

/// Below a prime `m`, the table of inverse factorials holds the inverse of `j!`.
proof fn lemma_fact_inv_mod_prime(j: nat, m: int)
    requires
        is_prime(m),
        j < m,
    ensures
        (fact_inv_mod(j, m) * (fact(j) as int)) % m == 1,
    decreases j,
{
    lemma_small_mod(1, m as nat);
    if j <= 1 {
        assert(fact(0) == 1);
        assert(fact(1) == 1 * fact(0));
    } else {
        lemma_fact_inv_mod_prime((j - 1) as nat, m);
        lemma_inv_mod_prime(j as int, m);
        let a = fact_inv_mod((j - 1) as nat, m);
        let f = fact((j - 1) as nat) as int;
        let v = inv_mod(j as int, m);
        assert(fact(j) as int == f * (j as int)) by (nonlinear_arith)
            requires
                fact(j) == j * fact((j - 1) as nat),
                f == fact((j - 1) as nat),
        ;
        lemma_mul_mod_noop_general(a * v, f * (j as int), m);
        assert((a * v) * (f * (j as int)) == (a * f) * (v * (j as int))) by (nonlinear_arith);
        lemma_mul_mod_noop_general(a * f, v * (j as int), m);
        assert((v * (j as int)) % m == 1);
        assert((a * f) % m == 1);
    }
}

/// `n! == (n - k)! * n * (n - 1) * ... * (n - k + 1)`.
proof fn lemma_fact_split(n: nat, k: nat)
    requires
        k <= n,
    ensures
        fact(n) as int == (fact((n - k) as nat) as int) * falling(n as int, k),
    decreases k,
{
    if k > 0 {
        lemma_fact_split((n - 1) as nat, (k - 1) as nat);
        lemma_falling_shift(n as int, (k - 1) as nat);
        let f = fact((n - k) as nat) as int;
        let p = falling(n as int - 1, (k - 1) as nat);
        assert(fact(n) as int == (n as int) * fact((n - 1) as nat));
        assert((n as int) * (f * p) == f * (p * (n as int))) by (nonlinear_arith);
    }
}

/// `falling(n, k + 1) == n * falling(n - 1, k)`.
proof fn lemma_falling_shift(n: int, k: nat)
    ensures
        falling(n, k + 1) == falling(n - 1, k) * n,
    decreases k,
{
    if k > 0 {
        lemma_falling_shift(n, (k - 1) as nat);
        let a = falling(n - 1, (k - 1) as nat);
        assert(falling(n, k + 1) == falling(n, k) * (n - k));
        assert(falling(n - 1, k) == a * (n - 1 - k + 1));
        assert((a * n) * (n - k) == (a * (n - k)) * n) by (nonlinear_arith);
    } else {
        assert(falling(n, 1) == falling(n, 0) * n);
    }
}

/// The number of `k`-permutations of `n` modulo a prime `m` above `n`: the count is
/// `n * (n - 1) * ... * (n - k + 1)`, and times `(n - k)!` it gives `n!`.
pub proof fn lemma_permutation_count(n: nat, k: nat, m: int)
    requires
        is_prime(m),
        k <= n < m,
    ensures
        spec_permutation(n, k, m) == falling(n as int, k) % m,
        (spec_permutation(n, k, m) * (fact((n - k) as nat) as int)) % m == (fact(n) as int) % m,
{
    lemma_small_mod(1, m as nat);
    lemma_fact_split(n, k);
    let fl = falling(n as int, k);
    let fk = fact((n - k) as nat) as int;
    if k == 0 {
        assert(fl == 1);
    } else if k == 1 {
        assert(falling(n as int, 1) == falling(n as int, 0) * (n as int));
    } else if k == 2 {
        assert(falling(n as int, 1) == falling(n as int, 0) * (n as int));
        assert(fl == (n as int) * (n as int - 1));
        lemma_mul_mod_noop_general(n as int, n as int - 1, m);
    } else {
        lemma_fact_mod_exact(n, m);
        lemma_fact_inv_mod_prime((n - k) as nat, m);
        let iv = fact_inv_mod((n - k) as nat, m);
        let fnn = fact(n) as int;
        lemma_mul_mod_noop_general(fnn, iv, m);
        assert(fnn * iv == (fk * iv) * fl) by (nonlinear_arith)
            requires
                fnn == fk * fl,
        ;
        lemma_mul_mod_noop_general(fk * iv, fl, m);
        assert((iv * fk) % m == 1);
        assert(fk * iv == iv * fk) by (nonlinear_arith);
    }
    let sp = spec_permutation(n, k, m);
    assert(sp == fl % m);
    lemma_mul_mod_noop_general(fl, fk, m);
    assert(fl * fk == fk * fl) by (nonlinear_arith);
}

/// The value `combination` computes for `n` and `k` modulo `m`.
pub open spec fn spec_combination(n: nat, k: nat, m: int) -> int {
    if n < k {
        0
    } else if k == 0 {
        1
    } else if k == 1 {
        n as int % m
    } else if k == 2 {
        (((n as int % m) * ((n - 1) as int % m)) % m * inv_mod(2, m)) % m
    } else {
        ((fact_mod(n, m) * fact_inv_mod(k, m)) % m * fact_inv_mod((n - k) as nat, m)) % m
    }
}

/// The value `permutation` computes for `n` and `k` modulo `m`.
pub open spec fn spec_permutation(n: nat, k: nat, m: int) -> int {
    if k == 0 {
        1
    } else if k == 1 {
        n as int % m
    } else if k == 2 {
        ((n as int % m) * ((n - 1) as int % m)) % m
    } else {
        (fact_mod(n, m) * fact_inv_mod((n - k) as nat, m)) % m
    }
}

/// Multiplying by `u` and then by `c` modulo `m`, where `u * c` is 1 modulo `m`, gives back
/// `x` modulo `m`.
proof fn lemma_mod_cancel(x: int, u: int, c: int, m: int)
    requires
        m > 0,
        (u * c) % m == 1,
    ensures
        (x * u * c) % m == x % m,
{
    assert(x * u * c == x * (u * c)) by (nonlinear_arith);
    lemma_mul_mod_noop_general(x, u * c, m);
    assert(x * 1 == x);
}

/// The binomial coefficient modulo a prime `m` above `n`: times `k!` and `(n - k)!` it gives
/// `n!`, that is `C(n, k) == n! / (k! * (n - k)!)` modulo `m`.
pub proof fn lemma_combination_count(n: nat, k: nat, m: int)
    requires
        is_prime(m),
        k <= n < m,
    ensures
        (spec_combination(n, k, m) * (fact(k) as int) * (fact((n - k) as nat) as int)) % m == (fact(n) as int) % m,
{
    let c = spec_combination(n, k, m);
    let fk = fact(k) as int;
    let fl = fact((n - k) as nat) as int;
    let fnn = fact(n) as int;
    lemma_fact_split(n, k);
    assert(fact(0) == 1);
    assert(fact(1) == 1 * fact(0));
    if k == 0 {
        assert(c == 1 && fk == 1);
        assert(fl == fnn);
        assert(c * fk * fl == fnn) by (nonlinear_arith)
            requires
                c == 1,
                fk == 1,
                fl == fnn,
        ;
    } else if k == 1 {
        assert(falling(n as int, 1) == falling(n as int, 0) * (n as int));
        assert(fnn == fl * (n as int));
        lemma_mul_mod_noop_general(n as int, fl, m);
        assert(c == n as int % m && fk == 1);
        assert(c * fk * fl == (n as int % m) * fl) by (nonlinear_arith)
            requires
                c == n as int % m,
                fk == 1,
        ;
        assert(fl * (n as int) == (n as int) * fl) by (nonlinear_arith);
        assert((c * fk * fl) % m == fnn % m);
    } else if k == 2 {
        assert(falling(n as int, 1) == falling(n as int, 0) * (n as int));
        assert(falling(n as int, 2) == falling(n as int, 1) * (n as int - 1));
        let nn = (n as int) * (n as int - 1);
        assert(fnn == fl * nn);
        assert(fact(2) == 2 * fact(1));
        lemma_inv_mod_prime(2, m);
        let v = inv_mod(2, m);
        lemma_mul_mod_noop_general(n as int, n as int - 1, m);
        lemma_mul_mod_noop_general(nn, v, m);
        assert(c == (nn * v) % m);
        lemma_mul_mod_noop_general(nn * v, 2 * fl, m);
        assert(c * fk * fl == c * (2 * fl)) by (nonlinear_arith)
            requires
                fk == 2,
        ;
        assert((nn * v) * (2 * fl) == (fl * nn) * v * 2) by (nonlinear_arith);
        lemma_mod_cancel(fl * nn, v, 2, m);
        assert((c * fk * fl) % m == fnn % m);
    } else {
        lemma_fact_mod_exact(n, m);
        lemma_fact_inv_mod_prime(k, m);
        lemma_fact_inv_mod_prime((n - k) as nat, m);
        let a = fact_inv_mod(k, m);
        let b = fact_inv_mod((n - k) as nat, m);
        lemma_mul_mod_noop_general(fnn, a, m);
        lemma_mul_mod_noop_general(fnn * a, b, m);
        assert(c == (fnn * a * b) % m);
        lemma_mul_mod_noop_general(fnn * a * b, fk * fl, m);
        assert(c * fk * fl == c * (fk * fl)) by (nonlinear_arith);
        assert((fnn * a * b) * (fk * fl) == fnn * (a * fk) * b * fl) by (nonlinear_arith);
        lemma_mod_cancel(fnn * (a * fk), b, fl, m);
        lemma_mod_cancel(fnn, a, fk, m);
        assert(fnn * (a * fk) == fnn * a * fk) by (nonlinear_arith);
        assert((c * fk * fl) % m == fnn % m);
    }
}

/// The binomial coefficient `n choose k` modulo `MOD` (for a prime `MOD` above `n`).
pub fn combination<const MOD: u64>(n: usize, k: usize) -> (r: ModInt<MOD>)
    requires
        ModInt::<MOD>::valid_modulus(),
        n < i64::MAX,
        n + 2 <= usize::MAX,
    ensures
        r@ == spec_combination(n as nat, k as nat, MOD as int),
        is_prime(MOD as int) && k <= n < MOD ==> (r@ * (fact(k as nat) as int) * (fact((n - k) as nat) as int)) % (
        MOD as int) == (fact(n as nat) as int) % (MOD as int),
{
    proof {
        if is_prime(MOD as int) && k <= n < MOD {
            lemma_combination_count(n as nat, k as nat, MOD as int);
        }
    }
    if n < k {
        return ModInt::<MOD>::zero();
    }
    if k == 0 {
        return ModInt::<MOD>::one();
    } else if k == 1 {
        return ModInt::<MOD>::from_usize(n);
    } else if k == 2 {
        let a = ModInt::<MOD>::from_usize(n);
        let b = ModInt::<MOD>::from_usize(n - 1);
        let two = ModInt::<MOD>::from_usize(2);
        return a.mul(b).div(two);
    }
    factorial::<MOD>(n).mul(factorial_inv::<MOD>(k)).mul(factorial_inv::<MOD>(n - k))
}

/// The number of `k`-permutations of `n` modulo `MOD` (for a prime `MOD` above `n`).
pub fn permutation<const MOD: u64>(n: usize, k: usize) -> (r: ModInt<MOD>)
    requires
        ModInt::<MOD>::valid_modulus(),
        n < i64::MAX,
        n + 2 <= usize::MAX,
        k == 2 ==> n >= 1,
        k >= 3 ==> k <= n,
    ensures
        r@ == spec_permutation(n as nat, k as nat, MOD as int),
        is_prime(MOD as int) && k <= n < MOD ==> r@ == falling(n as int, k as nat) % (MOD as int),
{
    proof {
        if is_prime(MOD as int) && k <= n < MOD {
            lemma_permutation_count(n as nat, k as nat, MOD as int);
        }
    }
    if k == 0 {
        return ModInt::<MOD>::one();
    } else if k == 1 {
        return ModInt::<MOD>::from_usize(n);
    } else if k == 2 {
        let a = ModInt::<MOD>::from_usize(n);
        let b = ModInt::<MOD>::from_usize(n - 1);
        return a.mul(b);
    }
    factorial::<MOD>(n).mul(factorial_inv::<MOD>(n - k))
}

} // verus!
