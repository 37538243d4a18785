//! Number-theoretic helpers on integers: prime factorization, divisors, squared length.
use vstd::prelude::*;
use vstd::arithmetic::power::*;
use vstd::arithmetic::power2::*;
use std::collections::BTreeMap;
use crate::ordering::sort_vec;

verus! {

broadcast use vstd::std_specs::btree::group_btree_axioms, vstd::laws_cmp::group_laws_cmp;

/// `p` is a prime.
pub open spec fn is_prime(p: int) -> bool {
    &&& p >= 2
    &&& forall|d: int| 2 <= d < p ==> #[trigger] (p % d) != 0
}

/// `d` divides `n` (for positive `d`).
pub open spec fn divides_u(d: int, n: int) -> bool {
    d >= 1 && n % d == 0
}

/// The product of `p^m[p]` over the keys `p < k` of `m`.
pub open spec fn fprod(m: Map<u64, usize>, k: nat) -> int
    decreases k,
{
    if k == 0 {
        1
    } else {
        let p = (k - 1) as int;
        fprod(m, (k - 1) as nat) * if p <= u64::MAX && m.contains_key(p as u64) {
            pow(p, m[p as u64] as nat)
        } else {
            1
        }
    }
}

/// Integers that can be factored, split into divisors and squared.
pub trait IntegerOperation: Sized {
    /// The value is positive and small enough for the factoring loops.
    spec fn factorable(&self) -> bool;

    /// `self * self + rhs * rhs` fits.
    spec fn squared_fits(&self, rhs: Self) -> bool;

    /// The prime factorization: each prime with its exponent.
    fn into_primes(self) -> BTreeMap<Self, usize>
        requires
            self.factorable(),
    ;

    /// All divisors in increasing order.
    fn into_divisors(self) -> Vec<Self>
        requires
            self.factorable(),
    ;

    /// `self * self + rhs * rhs`.
    fn squared_length(&self, rhs: Self) -> Self
        requires
            self.squared_fits(rhs),
    ;
}

/// Largest value accepted by the factoring loops: `(2^32 - 1)^2 - 1`.
pub const FACTOR_LIMIT: u64 = 18446744065119617024;

impl IntegerOperation for u64 {
    open spec fn factorable(&self) -> bool {
        1 <= *self <= FACTOR_LIMIT
    }

    open spec fn squared_fits(&self, rhs: u64) -> bool {
        *self * *self + rhs * rhs <= u64::MAX
    }

    fn into_primes(self) -> (r: BTreeMap<u64, usize>)
        ensures
            forall|p: u64| #[trigger] r@.contains_key(p) ==> is_prime(p as int) && r@[p] >= 1 && p <= self,
            fprod(r@, self as nat + 1) == self,
    {
        prime_factors(self)
    }

    fn into_divisors(self) -> (r: Vec<u64>)
        ensures
            crate::ordering::sorted(r@),
            r@.no_duplicates(),
            forall|d: u64| #[trigger] r@.contains(d) <==> divides_u(d as int, self as int),
    {
        divisors(self)
    }

    fn squared_length(&self, rhs: u64) -> (r: u64)
        ensures
            r == *self * *self + rhs * rhs,
    {
        *self * *self + rhs * rhs
    }
}

/// `n == d * q` gives the quotient and remainder of `n` by `d` and by `q`.
proof fn lemma_exact(n: int, d: int, q: int)
    requires
        d >= 1,
        q >= 1,
        n == d * q,
    ensures
        n % d == 0,
        n / d == q,
        n % q == 0,
        n / q == d,
{
    vstd::arithmetic::div_mod::lemma_mod_multiples_basic(q, d);
    vstd::arithmetic::div_mod::lemma_div_multiples_vanish(q, d);
    vstd::arithmetic::div_mod::lemma_mod_multiples_basic(d, q);
    vstd::arithmetic::div_mod::lemma_div_multiples_vanish(d, q);
    vstd::arithmetic::mul::lemma_mul_is_commutative(d, q);
}

/// A divisor `d` of `n >= 1` splits it as `d * (n / d)` with a positive cofactor.
proof fn lemma_split(n: int, d: int)
    requires
        n >= 1,
        d >= 1,
        n % d == 0,
    ensures
        n == d * (n / d),
        n / d >= 1,
        n % (n / d) == 0,
        n / (n / d) == d,
{
    vstd::arithmetic::div_mod::lemma_fundamental_div_mod(n, d);
    vstd::arithmetic::div_mod::lemma_div_pos_is_pos(n, d);
    if n / d == 0 {
        assert(d * 0 == 0);
    }
    lemma_exact(n, d, n / d);
}

/// For `i * i <= n`, the cofactor of a divisor `i` is at least `i`.
proof fn lemma_cofactor_big(n: int, i: int)
    requires
        n >= 1,
        1 <= i,
        i * i <= n,
        n % i == 0,
    ensures
        n / i >= i,
{
    lemma_split(n, i);
    if n / i < i {
        vstd::arithmetic::mul::lemma_mul_strict_inequality(n / i, i, i);
        vstd::arithmetic::mul::lemma_mul_is_commutative(n / i, i);
    }
}

/// For `i * i > n`, the cofactor of a divisor `d >= i` is below `i`.
proof fn lemma_cofactor_small(n: int, d: int, i: int)
    requires
        1 <= i <= d,
        i * i > n,
        n >= 1,
        n % d == 0,
    ensures
        n / d < i,
{
    lemma_split(n, d);
    if n / d >= i {
        vstd::arithmetic::mul::lemma_mul_inequality(i, n / d, i);
        vstd::arithmetic::mul::lemma_mul_inequality(i, d, n / d);
        vstd::arithmetic::mul::lemma_mul_is_commutative(i, n / d);
    }
}

/// The loop bound of the divisor scan stays below `2^32`.
proof fn lemma_root_bound(i: int)
    requires
        i >= 1,
        (i - 1) * (i - 1) <= FACTOR_LIMIT,
    ensures
        i <= 0xFFFF_FFFF,
        i * i <= u64::MAX,
{
    if i - 1 >= 0xFFFF_FFFF {
        vstd::arithmetic::mul::lemma_mul_inequality(0xFFFF_FFFF, i - 1, i - 1);
        vstd::arithmetic::mul::lemma_mul_inequality(0xFFFF_FFFF, i - 1, 0xFFFF_FFFF);
        assert(0xFFFF_FFFFint * 0xFFFF_FFFF == 18446744065119617025);
    }
    vstd::arithmetic::mul::lemma_mul_inequality(i, 0xFFFF_FFFF, i);
    vstd::arithmetic::mul::lemma_mul_inequality(i, 0xFFFF_FFFF, 0xFFFF_FFFF);
    assert(0xFFFF_FFFFint * 0xFFFF_FFFF == 18446744065119617025);
}

/// All divisors of `n`, in increasing order.
fn divisors(n: u64) -> (r: Vec<u64>)
    requires
        1 <= n <= FACTOR_LIMIT,
    ensures
        crate::ordering::sorted(r@),
        r@.no_duplicates(),
        forall|d: u64| #[trigger] r@.contains(d) <==> divides_u(d as int, n as int),
{
    let mut ret: Vec<u64> = Vec::new();
    let mut i: u64 = 1;
    assert forall|d: u64| #[trigger] ret@.contains(d) <==> (divides_u(d as int, n as int) && (d < i || n / d
        < i)) by {
        if divides_u(d as int, n as int) {
            lemma_split(n as int, d as int);
        }
    }
    proof {
        lemma_root_bound(1);
    }
    while i * i <= n
        invariant
            1 <= n <= FACTOR_LIMIT,
            1 <= i,
            (i - 1) * (i - 1) <= n,
            i * i <= u64::MAX,
            ret@.no_duplicates(),
            forall|d: u64| #[trigger] ret@.contains(d) <==> (divides_u(d as int, n as int) && (d < i || n / d
                < i)),
        decreases 0x1_0000_0000 - i,
    {
        proof {
            lemma_root_bound(i as int);
        }
        if n % i == 0 {
            proof {
                lemma_split(n as int, i as int);
                lemma_cofactor_big(n as int, i as int);
            }
            let ghost before = ret@;
            ret.push(i);
            let q = n / i;
            if q != i {
                ret.push(q);
            }
            assert forall|d: u64| #[trigger] ret@.contains(d) <==> (divides_u(d as int, n as int) && (d < i
                + 1 || n / d < i + 1)) by {
                if ret@.contains(d) && !before.contains(d) {
                    assert(d == i || d == q);
                }
                if before.contains(d) {
                    let k = choose|k: int| 0 <= k < before.len() && before[k] == d;
                    assert(ret@[k] == d);
                }
                if divides_u(d as int, n as int) && (d < i + 1 || n / d < i + 1) && !before.contains(d) {
                    if d == i {
                        assert(ret@[before.len() as int] == d);
                    } else {
                        assert(n / d == i);
                        lemma_split(n as int, d as int);
                        assert(d == q);
                        assert(ret@[before.len() as int + 1] == d);
                    }
                }
            }
            assert(ret@.no_duplicates()) by {
                assert(!before.contains(i));
                if q != i {
                    assert(!before.contains(q));
                }
            }
        } else {
            assert forall|d: u64| #[trigger] ret@.contains(d) <==> (divides_u(d as int, n as int) && (d < i
                + 1 || n / d < i + 1)) by {
                assert(ret@.contains(d) <==> (divides_u(d as int, n as int) && (d < i || n / d < i)));
                if divides_u(d as int, n as int) && (d < i + 1 || n / d < i + 1) && !(d < i || n / d < i) {
                    if d == i {
                        assert((n as int) % (i as int) == 0);
                        assert(false);
                    } else {
                        assert(n / d == i);
                        lemma_split(n as int, d as int);
                        assert((n as int) / (d as int) == i as int);
                        assert((n as int) % (i as int) == 0);
                        assert(false);
                    }
                }
            }
        }
        i += 1;
        proof {
            lemma_root_bound(i as int);
        }
    }
    assert forall|d: u64| #[trigger] ret@.contains(d) <==> divides_u(d as int, n as int) by {
        if divides_u(d as int, n as int) && d >= i {
            lemma_cofactor_small(n as int, d as int, i as int);
        }
    }
    let ghost unsorted = ret@;
    sort_vec(&mut ret);
    proof {
        assert forall|d: u64| #[trigger] ret@.contains(d) <==> unsorted.contains(d) by {
            vstd::seq_lib::to_multiset_contains(ret@, d);
            vstd::seq_lib::to_multiset_contains(unsorted, d);
        }
        assert(ret@.no_duplicates()) by {
            unsorted.lemma_multiset_has_no_duplicates();
            ret@.lemma_multiset_has_no_duplicates_conv();
        }
    }
    ret
}

/// The factor of key `p` in `fprod`.
pub open spec fn factor_of(m: Map<u64, usize>, p: int) -> int {
    if 0 <= p <= u64::MAX && m.contains_key(p as u64) {
        pow(p, m[p as u64] as nat)
    } else {
        1
    }
}

/// Changing the count of key `p` changes only its factor in `fprod`.
proof fn lemma_fprod_insert(m: Map<u64, usize>, p: u64, v: usize, k: nat)
    ensures
        k <= p ==> fprod(m.insert(p, v), k) == fprod(m, k),
        k > p ==> fprod(m.insert(p, v), k) * factor_of(m, p as int) == fprod(m, k) * factor_of(
            m.insert(p, v),
            p as int,
        ),
    decreases k,
{
    let m2 = m.insert(p, v);
    if k > 0 {
        lemma_fprod_insert(m, p, v, (k - 1) as nat);
        let q = (k - 1) as int;
        assert(fprod(m, k) == fprod(m, (k - 1) as nat) * factor_of(m, q));
        assert(fprod(m2, k) == fprod(m2, (k - 1) as nat) * factor_of(m2, q));
        if q != p {
            assert(factor_of(m2, q) == factor_of(m, q));
        }
        if k > p {
            let a = fprod(m2, (k - 1) as nat);
            let b = fprod(m, (k - 1) as nat);
            let fo = factor_of(m, p as int);
            let fnew = factor_of(m2, p as int);
            let fq = factor_of(m, q);
            if q == p {
                assert(a == b);
                assert(a * fnew * fo == b * fo * fnew) by (nonlinear_arith)
                    requires
                        a == b,
                ;
            } else {
                assert(a * fo == b * fnew);
                assert(a * fq * fo == b * fq * fnew) by (nonlinear_arith)
                    requires
                        a * fo == b * fnew,
                ;
            }
        }
    }
}

/// All factors are positive.
proof fn lemma_fprod_pos(m: Map<u64, usize>, k: nat)
    requires
        forall|p: u64| #[trigger] m.contains_key(p) ==> p >= 1,
    ensures
        fprod(m, k) >= 1,
    decreases k,
{
    if k > 0 {
        lemma_fprod_pos(m, (k - 1) as nat);
        let q = (k - 1) as int;
        if 0 <= q <= u64::MAX && m.contains_key(q as u64) {
            lemma_pow_positive(q, m[q as u64] as nat);
        }
        let a = fprod(m, (k - 1) as nat);
        let f = factor_of(m, q);
        assert(a * f >= 1) by (nonlinear_arith)
            requires
                a >= 1,
                f >= 1,
        ;
    }
}

/// A divisor of a divisor is a divisor.
proof fn lemma_divides_trans(d: int, i: int, n: int)
    requires
        d >= 1,
        i >= 1,
        n >= 1,
        i % d == 0,
        n % i == 0,
    ensures
        n % d == 0,
{
    lemma_split(i, d);
    lemma_split(n, i);
    let a = i / d;
    let b = n / i;
    assert(n == d * (a * b)) by (nonlinear_arith)
        requires
            i == d * a,
            n == i * b,
    ;
    assert(a * b >= 1) by (nonlinear_arith)
        requires
            a >= 1,
            b >= 1,
    ;
    lemma_exact(n, d, a * b);
}

/// Dividing by a divisor keeps every divisor of the quotient a divisor of the number.
proof fn lemma_quotient_divisor(n: int, i: int, d: int)
    requires
        n >= 1,
        i >= 1,
        d >= 1,
        n % i == 0,
        (n / i) % d == 0,
    ensures
        n % d == 0,
{
    lemma_split(n, i);
    lemma_exact(n, i, n / i);
    lemma_divides_trans(d, n / i, n);
}

/// An even number does not divide an odd one.
proof fn lemma_even_no_divide(n: int, d: int)
    requires
        n % 2 == 1,
        d >= 2,
        d % 2 == 0,
        n >= 1,
    ensures
        n % d != 0,
{
    if n % d == 0 {
        lemma_divides_trans(2, d, n);
    }
}

/// Add one to the count of `p`.
fn count_up(ans: &mut BTreeMap<u64, usize>, p: u64)
    requires
        p >= 1,
        count_bound(old(ans)@, 63),
    ensures
        forall|k: nat| k > p ==> fprod(final(ans)@, k) == fprod(old(ans)@, k) * p,
        final(ans)@.dom() == old(ans)@.dom().insert(p),
        forall|q: u64| q != p && #[trigger] old(ans)@.contains_key(q) ==> final(ans)@[q] == old(ans)@[q],
        final(ans)@[p] >= 1,
        final(ans)@[p] == if old(ans)@.contains_key(p) {
            old(ans)@[p] + 1
        } else {
            1
        },
{
    let c: usize = match ans.get(&p) {
        Some(v) => *v,
        None => 0,
    };
    let ghost m0 = ans@;
    ans.insert(p, c + 1);
    proof {
        assert forall|k: nat| k > p implies fprod(ans@, k) == fprod(m0, k) * p by {
            lemma_fprod_insert(m0, p, (c + 1) as usize, k);
            let fo = factor_of(m0, p as int);
            lemma_pow_positive(p as int, c as nat);
            if m0.contains_key(p) {
                assert(fo == pow(p as int, c as nat));
            } else {
                assert(fo == 1);
                lemma_pow0(p as int);
            }
            assert(fo == pow(p as int, c as nat));
            lemma_pow_adds(p as int, c as nat, 1);
            lemma_pow1(p as int);
            assert(factor_of(ans@, p as int) == fo * p);
            let a = fprod(ans@, k);
            let b = fprod(m0, k);
            assert(a * fo == b * (fo * p));
            assert(a == b * p) by (nonlinear_arith)
                requires
                    a * fo == b * (fo * p),
                    fo >= 1,
            ;
        }
    }
}

/// Every count is at most `c`.
pub open spec fn count_bound(m: Map<u64, usize>, c: int) -> bool {
    forall|p: u64| #[trigger] m.contains_key(p) ==> m[p] <= c
}

/// The empty factorization has product one.
proof fn lemma_fprod_empty(k: nat)
    ensures
        fprod(Map::<u64, usize>::empty(), k) == 1,
    decreases k,
{
    if k > 0 {
        lemma_fprod_empty((k - 1) as nat);
    }
}

/// A number of halvings bounded by a 64-bit value is below 64.
proof fn lemma_steps_bound(steps: nat, n: int, n0: int)
    requires
        pow2(steps) * n <= n0,
        n >= 1,
        n0 <= u64::MAX,
    ensures
        steps < 64,
{
    lemma_pow2_pos(steps);
    assert(pow2(steps) <= n0) by (nonlinear_arith)
        requires
            pow2(steps) * n <= n0,
            n >= 1,
            pow2(steps) > 0,
    ;
    lemma2_to64_rest();
    if steps >= 64 {
        if steps > 64 {
            lemma_pow2_strictly_increases(64, steps);
        }
    }
}

/// One division by a factor `p >= 2`: the product, the halving count and the count bound follow.
proof fn lemma_divide_step(a0: int, a1: int, p: int, n: int, n0: int, steps: nat)
    requires
        p >= 2,
        n >= 1,
        n % p == 0,
        a1 == a0 * p,
        a0 * n == n0,
        pow2(steps) * n <= n0,
    ensures
        a1 * (n / p) == n0,
        pow2(steps + 1) * (n / p) <= n0,
        n / p >= 1,
        n / p < n,
{
    lemma_split(n, p);
    let q = n / p;
    assert(a1 * q == n0) by (nonlinear_arith)
        requires
            a1 == a0 * p,
            a0 * n == n0,
            n == p * q,
    ;
    lemma_pow2_unfold(steps + 1);
    lemma_pow2_pos(steps);
    assert(pow2(steps + 1) * q <= n0) by (nonlinear_arith)
        requires
            pow2(steps + 1) == 2 * pow2(steps),
            pow2(steps) > 0,
            pow2(steps) * n <= n0,
            n == p * q,
            p >= 2,
            q >= 1,
    ;
    assert(q < n) by (nonlinear_arith)
        requires
            n == p * q,
            p >= 2,
            q >= 1,
    ;
}

/// A divisor `i` of `n` with no divisor of `n` in `[2, i)` is prime.
proof fn lemma_smallest_divisor_prime(n: int, i: int)
    requires
        n >= 1,
        i >= 2,
        n % i == 0,
        forall|d: int| 2 <= d < i ==> #[trigger] (n % d) != 0,
    ensures
        is_prime(i),
{
    assert forall|d: int| 2 <= d < i implies #[trigger] (i % d) != 0 by {
        if i % d == 0 {
            lemma_divides_trans(d, i, n);
            assert(n % d != 0);
        }
    }
}

/// A number up to `2^32 - 1` has a square that fits.
proof fn lemma_sq_le(i: int)
    requires
        0 <= i <= 0xFFFF_FFFF,
    ensures
        i * i <= 18446744065119617025,
        i * i <= u64::MAX,
{
    vstd::arithmetic::mul::lemma_mul_inequality(i, 0xFFFF_FFFF, i);
    vstd::arithmetic::mul::lemma_mul_inequality(i, 0xFFFF_FFFF, 0xFFFF_FFFF);
    vstd::arithmetic::mul::lemma_mul_is_commutative(i, 0xFFFF_FFFF);
    assert(0xFFFF_FFFFint * 0xFFFF_FFFF == 18446744065119617025);
}

/// A square at most `FACTOR_LIMIT` has a root below `2^32 - 1`.
proof fn lemma_sq_small(i: int, n: int)
    requires
        0 <= i,
        i * i <= n,
        n <= FACTOR_LIMIT,
    ensures
        i < 0xFFFF_FFFF,
{
    if i >= 0xFFFF_FFFF {
        vstd::arithmetic::mul::lemma_mul_inequality(0xFFFF_FFFF, i, i);
        vstd::arithmetic::mul::lemma_mul_inequality(0xFFFF_FFFF, i, 0xFFFF_FFFF);
        vstd::arithmetic::mul::lemma_mul_is_commutative(i, 0xFFFF_FFFF);
        assert(0xFFFF_FFFFint * 0xFFFF_FFFF == 18446744065119617025);
    }
}

/// The prime factorization of `n`.
#[verifier::rlimit(60)]
fn prime_factors(n0: u64) -> (r: BTreeMap<u64, usize>)
    requires
        1 <= n0 <= FACTOR_LIMIT,
    ensures
        forall|p: u64| #[trigger] r@.contains_key(p) ==> is_prime(p as int) && r@[p] >= 1 && p <= n0,
        fprod(r@, n0 as nat + 1) == n0,
{
    let mut n = n0;
    let mut ans: BTreeMap<u64, usize> = BTreeMap::new();
    let ghost mut steps: nat = 0;
    proof {
        lemma_fprod_empty(n0 as nat + 1);
        assert(ans@ == Map::<u64, usize>::empty());
        lemma2_to64();
    }
    while n % 2 == 0
        invariant
            1 <= n <= n0 <= FACTOR_LIMIT,
            fprod(ans@, n0 as nat + 1) * n == n0,
            pow2(steps) * n <= n0,
            count_bound(ans@, steps as int),
            forall|p: u64| #[trigger] ans@.contains_key(p) ==> p == 2 && ans@[p] >= 1 && p <= n0,
        decreases n,
    {
        proof {
            lemma_steps_bound(steps, n as int, n0 as int);
        }
        let ghost a0 = fprod(ans@, n0 as nat + 1);
        let ghost m0 = ans@;
        count_up(&mut ans, 2);
        proof {
            lemma_divide_step(a0, fprod(ans@, n0 as nat + 1), 2, n as int, n0 as int, steps);
            assert forall|p: u64| #[trigger] ans@.contains_key(p) implies ans@[p] <= steps + 1 by {
                if p != 2 {
                    assert(m0.contains_key(p));
                }
            }
            steps = steps + 1;
        }
        n = n / 2;
    }
    proof {
        assert(is_prime(2));
    }
    let mut i: u64 = 3;
    proof {
        lemma_sq_le(3);
    }
    while i * i <= n
        invariant
            1 <= n <= n0 <= FACTOR_LIMIT,
            n % 2 == 1,
            i >= 3,
            i % 2 == 1,
            i <= 0xFFFF_FFFF,
            i * i <= u64::MAX,
            forall|d: int| 2 <= d < i ==> #[trigger] ((n as int) % d) != 0,
            fprod(ans@, n0 as nat + 1) * n == n0,
            pow2(steps) * n <= n0,
            count_bound(ans@, steps as int),
            forall|p: u64| #[trigger] ans@.contains_key(p) ==> is_prime(p as int) && ans@[p] >= 1 && p <= n0 && p < i,
        decreases 0x1_0000_0000 - i,
    {
        proof {
            lemma_sq_le(i as int);
            lemma_sq_small(i as int, n as int);
        }
        while n % i == 0
            invariant
                1 <= n <= n0 <= FACTOR_LIMIT,
                n % 2 == 1,
                i >= 3,
                i % 2 == 1,
                i * i <= u64::MAX,
                i <= 0xFFFF_FFFF,
                forall|d: int| 2 <= d < i ==> #[trigger] ((n as int) % d) != 0,
                fprod(ans@, n0 as nat + 1) * n == n0,
                pow2(steps) * n <= n0,
                count_bound(ans@, steps as int),
                forall|p: u64| #[trigger] ans@.contains_key(p) ==> is_prime(p as int) && ans@[p] >= 1 && p <= n0 && p
                    <= i,
            decreases n,
        {
            proof {
                lemma_steps_bound(steps, n as int, n0 as int);
                lemma_smallest_divisor_prime(n as int, i as int);
                lemma_split(n as int, i as int);
            }
            let ghost a0 = fprod(ans@, n0 as nat + 1);
            let ghost m0 = ans@;
            let ghost nn = n;
            count_up(&mut ans, i);
            proof {
                lemma_divide_step(a0, fprod(ans@, n0 as nat + 1), i as int, n as int, n0 as int, steps);
                assert forall|p: u64| #[trigger] ans@.contains_key(p) implies ans@[p] <= steps + 1 by {
                    if p != i {
                        assert(m0.contains_key(p));
                    }
                }
                steps = steps + 1;
            }
            n = n / i;
            proof {
                assert forall|d: int| 2 <= d < i implies #[trigger] ((n as int) % d) != 0 by {
                    if (n as int) % d == 0 {
                        lemma_quotient_divisor(nn as int, i as int, d);
                    }
                }
                if n % 2 == 0 {
                    lemma_quotient_divisor(nn as int, i as int, 2);
                }
            }
        }
        proof {
            assert forall|d: int| 2 <= d < i + 2 implies #[trigger] ((n as int) % d) != 0 by {
                if d == i + 1 {
                    lemma_even_no_divide(n as int, d);
                }
            }
        }
        i += 2;
        proof {
            lemma_sq_le(i as int);
        }
    }
    if n != 1 {
        proof {
            lemma_steps_bound(steps, n as int, n0 as int);
            assert forall|d: int| 2 <= d < n implies #[trigger] ((n as int) % d) != 0 by {
                if (n as int) % d == 0 && d >= i {
                    lemma_cofactor_small(n as int, d, i as int);
                    lemma_split(n as int, d);
                    let c = (n as int) / d;
                    if c == 1 {
                        assert(n == d * 1);
                    }
                }
            }
            assert(is_prime(n as int));
        }
        let ghost a0 = fprod(ans@, n0 as nat + 1);
        let ghost m0 = ans@;
        count_up(&mut ans, n);
        proof {
            let a1 = fprod(ans@, n0 as nat + 1);
            assert(a1 == a0 * n);
            assert(a1 == n0) by (nonlinear_arith)
                requires
                    a1 == a0 * n,
                    a0 * n == n0,
            ;
            assert forall|p: u64| #[trigger] ans@.contains_key(p) implies is_prime(p as int) && ans@[p] >= 1
                && p <= n0 by {
                if p != n {
                    assert(m0.contains_key(p));
                }
            }
        }
    } else {
        proof {
            assert(fprod(ans@, n0 as nat + 1) == n0);
        }
    }
    ans
}

} // verus!
