//! Polynomial rolling hash of a sequence modulo two primes, with O(1) hashes of ranges.
use vstd::prelude::*;
use vstd::arithmetic::power::*;
use vstd::arithmetic::div_mod::*;
use vstd::arithmetic::mul::*;
use crate::modint::lemma_modpow_step;

verus! {

/// The first modulus.
pub const MOD0: u64 = 1000000007;
/// The second modulus.
pub const MOD1: u64 = 998244353;

/// Modulus number `m` (`0` or `1`).
pub open spec fn spec_hash_mod(m: int) -> int {
    if m == 0 {
        MOD0 as int
    } else {
        MOD1 as int
    }
}

/// Modulus number `m`.
pub fn hash_mod(m: usize) -> (r: u64)
    requires
        m < 2,
    ensures
        r == spec_hash_mod(m as int),
{
    if m == 0 {
        MOD0
    } else {
        MOD1
    }
}

/// `sum_{j < k} values[j] * base^j`.
pub open spec fn poly(values: Seq<usize>, base: int, k: int) -> int
    decreases k,
{
    if k <= 0 {
        0
    } else {
        poly(values, base, k - 1) + values[k - 1] * pow(base, (k - 1) as nat)
    }
}

/// `sum_{i0 <= j <= i1} values[j] * base^(j - i0)`: the hash polynomial of a range.
pub open spec fn window(values: Seq<usize>, base: int, i0: int, i1: int) -> int
    decreases i1 - i0 + 1,
{
    if i1 < i0 {
        0
    } else {
        window(values, base, i0, i1 - 1) + values[i1] * pow(base, (i1 - i0) as nat)
    }
}

/// The inverse of the base used modulo `m`: `base^(m - 2) mod m`.
pub open spec fn inv_base(base: int, m: int) -> int {
    pow(base, (m - 2) as nat) % m
}

/// `base^(md - 2) mod md` by binary exponentiation.
fn calc_inv_base(md: u64, base: u64) -> (r: u64)
    requires
        3 <= md < 0x4000_0000,
        base < 0x1_0000_0000,
    ensures
        r == inv_base(base as int, md as int),
{
    let mut p: u64 = md - 2;
    let mut ret: u64 = 1;
    let mut mul: u64 = base;
    proof {
        lemma_pow0(base as int);
        lemma_small_mod(1, md as nat);
    }
    while p > 0
        invariant
            3 <= md < 0x4000_0000,
            ret < md,
            mul < 0x1_0000_0000,
            (ret * pow(mul as int, p as nat)) % (md as int) == pow(base as int, (md - 2) as nat) % (
            md as int),
        decreases p,
    {
        proof {
            lemma_modpow_step(ret as int, mul as int, p as nat, md as int);
        }
        assert(p & 1 != 0 <==> p % 2 == 1) by (bit_vector);
        assert(p >> 1 == p / 2) by (bit_vector);
        assert(ret * mul < 0x4000_0000 * 0x1_0000_0000) by (nonlinear_arith)
            requires
                ret < 0x4000_0000,
                mul < 0x1_0000_0000,
        ;
        assert(mul * mul < 0x1_0000_0000 * 0x1_0000_0000) by (nonlinear_arith)
            requires
                mul < 0x1_0000_0000,
        ;
        if p & 1 != 0 {
            ret = (ret * mul) % md;
        }
        p >>= 1;
        mul = (mul * mul) % md;
    }
    proof {
        lemma_pow0(mul as int);
        lemma_small_mod(ret as nat, md as nat);
    }
    ret
}

/// `pow(b, e + 1) == pow(b, e) * b`.
proof fn lemma_pow_succ(b: int, e: nat)
    ensures
        pow(b, e + 1) == pow(b, e) * b,
{
    lemma_pow_adds(b, e, 1);
    lemma_pow1(b);
}

/// The rows `pows[p] == x^p mod md` for `p < n`.
fn power_row(x: u64, md: u64, n: usize) -> (row: Vec<u64>)
    requires
        2 <= md < 0x4000_0000,
        x < 0x1_0000_0000,
    ensures
        row@.len() == n,
        forall|p: int| 0 <= p < n ==> #[trigger] row@[p] == pow(x as int, p as nat) % (md as int),
{
    let mut row: Vec<u64> = Vec::new();
    if n > 0 {
        row.push(1);
        proof {
            lemma_pow0(x as int);
            lemma_small_mod(1, md as nat);
        }
    }
    let mut p: usize = 1;
    while p < n
        invariant
            2 <= md < 0x4000_0000,
            x < 0x1_0000_0000,
            n > 0 ==> 1 <= p <= n,
            n == 0 ==> row@.len() == 0,
            n > 0 ==> row@.len() == p,
            forall|q: int| 0 <= q < row@.len() ==> #[trigger] row@[q] == pow(x as int, q as nat) % (md as int),
            forall|q: int| 0 <= q < row@.len() ==> #[trigger] row@[q] < md,
        decreases n - p,
    {
        let last = row[p - 1];
        assert(last * x < 0x4000_0000 * 0x1_0000_0000) by (nonlinear_arith)
            requires
                last < 0x4000_0000,
                x < 0x1_0000_0000,
        ;
        let v = (last * x) % md;
        proof {
            lemma_pow_succ(x as int, (p - 1) as nat);
            lemma_mul_mod_noop_left(pow(x as int, (p - 1) as nat), x as int, md as int);
        }
        row.push(v);
        p += 1;
    }
    row
}

/// Prefix hashes of a sequence modulo two primes, with the powers of the base and of its
/// inverse.
pub struct RollingHash {
    cum_hashes: Vec<Vec<u64>>,
    base: usize,
    base_powers: Vec<Vec<u64>>,
    base_powers_inv: Vec<Vec<u64>>,
    values: Ghost<Seq<usize>>,
}

/// The hash of the range `[i0, i1]` of the sequence of `org`.
pub struct RollingHashValue<'a> {
    org: &'a RollingHash,
    i0: usize,
    i1: usize,
}

impl RollingHash {
    /// The hashed sequence.
    pub closed spec fn values_of(&self) -> Seq<usize> {
        self.values@
    }

    /// The base.
    pub closed spec fn base_of(&self) -> int {
        self.base as int
    }

    /// Prefix hash `i` modulo `m`: the hash of `values[0..=i]`.
    pub closed spec fn cum(&self, m: int, i: int) -> int {
        self.cum_hashes@[m]@[i] as int
    }

    /// `base^(-p)` modulo `m` as stored.
    pub closed spec fn pow_inv(&self, m: int, p: int) -> int {
        self.base_powers_inv@[m]@[p] as int
    }

    /// Tables of the right lengths holding the values described by their names.
    pub closed spec fn well_formed(&self) -> bool {
        let n = self.values@.len();
        let b = self.base as int;
        &&& self.cum_hashes@.len() == 2
        &&& self.base_powers@.len() == 2
        &&& self.base_powers_inv@.len() == 2
        &&& forall|m: int| 0 <= m < 2 ==> (#[trigger] self.cum_hashes@[m])@.len() == n
        &&& forall|m: int| 0 <= m < 2 ==> (#[trigger] self.base_powers@[m])@.len() == n
        &&& forall|m: int| 0 <= m < 2 ==> (#[trigger] self.base_powers_inv@[m])@.len() == n
        &&& forall|m: int, i: int|
            0 <= m < 2 && 0 <= i < n ==> #[trigger] self.cum_hashes@[m]@[i] == poly(self.values@, b, i + 1)
                % spec_hash_mod(m)
        &&& forall|m: int, i: int|
            0 <= m < 2 && 0 <= i < n ==> #[trigger] self.base_powers@[m]@[i] == pow(b, i as nat)
                % spec_hash_mod(m)
        &&& forall|m: int, i: int|
            0 <= m < 2 && 0 <= i < n ==> #[trigger] self.base_powers_inv@[m]@[i] == pow(
                inv_base(b, spec_hash_mod(m)),
                i as nat,
            ) % spec_hash_mod(m)
    }

    /// The prefix hashes of `values` with base `base`.
    pub fn new(values: &Vec<usize>, base: usize) -> (r: RollingHash)
        requires
            base < 0x1_0000_0000,
            forall|i: int| 0 <= i < values@.len() ==> #[trigger] values@[i] < 0x4_0000_0000,
        ensures
            r.well_formed(),
            r.values_of() == values@,
            r.base_of() == base,
    {
        let n = values.len();
        let b = base as u64;
        let mut base_powers: Vec<Vec<u64>> = Vec::new();
        let mut base_powers_inv: Vec<Vec<u64>> = Vec::new();
        let mut cum_hashes: Vec<Vec<u64>> = Vec::new();
        for m in 0..2
            invariant
                n == values@.len(),
                b == base,
                b < 0x1_0000_0000,
                forall|i: int| 0 <= i < values@.len() ==> #[trigger] values@[i] < 0x4_0000_0000,
                base_powers@.len() == m,
                base_powers_inv@.len() == m,
                cum_hashes@.len() == m,
                forall|k: int| 0 <= k < m ==> (#[trigger] cum_hashes@[k])@.len() == n,
                forall|k: int| 0 <= k < m ==> (#[trigger] base_powers@[k])@.len() == n,
                forall|k: int| 0 <= k < m ==> (#[trigger] base_powers_inv@[k])@.len() == n,
                forall|k: int, i: int|
                    0 <= k < m && 0 <= i < n ==> #[trigger] cum_hashes@[k]@[i] == poly(values@, b as int, i + 1)
                        % spec_hash_mod(k),
                forall|k: int, i: int|
                    0 <= k < m && 0 <= i < n ==> #[trigger] base_powers@[k]@[i] == pow(b as int, i as nat)
                        % spec_hash_mod(k),
                forall|k: int, i: int|
                    0 <= k < m && 0 <= i < n ==> #[trigger] base_powers_inv@[k]@[i] == pow(
                        inv_base(b as int, spec_hash_mod(k)),
                        i as nat,
                    ) % spec_hash_mod(k),
        {
            let md = hash_mod(m);
            let bp = power_row(b, md, n);
            let ib = calc_inv_base(md, b);
            let bpi = power_row(ib, md, n);
            let mut cum: Vec<u64> = Vec::new();
            for i in 0..n
                invariant
                    n == values@.len(),
                    md == spec_hash_mod(m as int),
                    m < 2,
                    b < 0x1_0000_0000,
                    forall|i: int| 0 <= i < values@.len() ==> #[trigger] values@[i] < 0x4_0000_0000,
                    bp@.len() == n,
                    forall|p: int| 0 <= p < n ==> #[trigger] bp@[p] == pow(b as int, p as nat) % (md as int),
                    cum@.len() == i,
                    forall|k: int| 0 <= k < i ==> #[trigger] cum@[k] == poly(values@, b as int, k + 1) % (md as int),
            {
                let x = values[i] as u64;
                let w = bp[i];
                assert(x * w < 0x4_0000_0000 * 0x4000_0000) by (nonlinear_arith)
                    requires
                        x < 0x4_0000_0000,
                        w < 0x4000_0000,
                ;
                let term = (x * w) % md;
                proof {
                    lemma_mul_mod_noop_right(x as int, pow(b as int, i as nat), md as int);
                }
                if i == 0 {
                    cum.push(term);
                    proof {
                        lemma_pow0(b as int);
                        reveal_with_fuel(poly, 2);
                        assert(poly(values@, b as int, 1) == x * pow(b as int, 0));
                    }
                } else {
                    let prev = cum[i - 1];
                    let v = (prev + term) % md;
                    proof {
                        lemma_add_mod_noop(
                            poly(values@, b as int, i as int),
                            x * pow(b as int, i as nat),
                            md as int,
                        );
                        lemma_mod_twice(x * pow(b as int, i as nat), md as int);
                    }
                    cum.push(v);
                }
            }
            base_powers.push(bp);
            base_powers_inv.push(bpi);
            cum_hashes.push(cum);
        }
        RollingHash { cum_hashes, base, base_powers, base_powers_inv, values: Ghost(values@) }
    }

    /// The hash of the closed range `[i0, i1]`.
    pub fn hash(&self, i0: usize, i1: usize) -> (r: RollingHashValue<'_>)
        ensures
            r.org() == self,
            r.range() == (i0, i1),
    {
        RollingHashValue { org: self, i0, i1 }
    }
}

/// The value a range hash computes modulo `m`.
pub open spec fn spec_range_hash(h: &RollingHash, i0: int, i1: int, m: int) -> int {
    let md = spec_hash_mod(m);
    if i0 > 0 {
        ((md + h.cum(m, i1) - h.cum(m, i0 - 1)) * h.pow_inv(m, i0)) % md
    } else {
        h.cum(m, i1)
    }
}

impl<'a> RollingHashValue<'a> {
    /// The hashed structure.
    pub closed spec fn org(&self) -> &'a RollingHash {
        self.org
    }

    /// The hashed range.
    pub closed spec fn range(&self) -> (usize, usize) {
        (self.i0, self.i1)
    }

    /// The value `get` computes: one hash per modulus.
    pub open spec fn spec_get(&self) -> (int, int) {
        (
            spec_range_hash(self.org(), self.range().0 as int, self.range().1 as int, 0),
            spec_range_hash(self.org(), self.range().0 as int, self.range().1 as int, 1),
        )
    }

    /// The range lies inside the hashed sequence.
    pub open spec fn in_range(&self) -> bool {
        &&& self.org().well_formed()
        &&& self.range().0 <= self.range().1 < self.org().values_of().len()
    }

    /// The hash of the range modulo both primes.
    pub fn get(&self) -> (r: (u64, u64))
        requires
            self.in_range(),
        ensures
            r.0 == self.spec_get().0,
            r.1 == self.spec_get().1,
    {
        let h0 = self.get_mod(0);
        let h1 = self.get_mod(1);
        (h0, h1)
    }

    /// The hash of the range modulo prime `m`.
    fn get_mod(&self, m: usize) -> (r: u64)
        requires
            self.in_range(),
            m < 2,
        ensures
            r == spec_range_hash(self.org(), self.range().0 as int, self.range().1 as int, m as int),
    {
        let h = self.org;
        let md = hash_mod(m);
        if self.i0 > 0 {
            let a = h.cum_hashes[m][self.i1];
            let b = h.cum_hashes[m][self.i0 - 1];
            let q = h.base_powers_inv[m][self.i0];
            proof {
                lemma_mod_bound(poly(h.values@, h.base as int, self.i1 + 1), md as int);
                lemma_mod_bound(poly(h.values@, h.base as int, self.i0 as int), md as int);
                lemma_mod_bound(pow(inv_base(h.base as int, md as int), self.i0 as nat), md as int);
            }
            let s = md + a - b;
            assert(s * q < 0x8000_0000 * 0x4000_0000) by (nonlinear_arith)
                requires
                    s < 0x8000_0000,
                    q < 0x4000_0000,
            ;
            (s * q) % md
        } else {
            h.cum_hashes[m][self.i1]
        }
    }
}

impl<'a> RollingHashValue<'a> {
    /// The two ranges have the same hash values.
    pub fn eq(&self, other: &Self) -> (r: bool)
        requires
            self.in_range(),
            other.in_range(),
        ensures
            r == (self.spec_get() == other.spec_get()),
    {
        let a = self.get();
        let b = other.get();
        a.0 == b.0 && a.1 == b.1
    }
}

/// Builds the rolling hash of a sequence.
pub trait GenRollingHash {
    /// The sequence can be hashed with `base`.
    spec fn hashable(&self, base: usize) -> bool;

    fn rolling_hash(&self, base: usize) -> RollingHash
        requires
            self.hashable(base),
    ;
}

impl GenRollingHash for Vec<usize> {
    open spec fn hashable(&self, base: usize) -> bool {
        &&& base < 0x1_0000_0000
        &&& forall|i: int| 0 <= i < self@.len() ==> #[trigger] self@[i] < 0x4_0000_0000
    }

    fn rolling_hash(&self, base: usize) -> (r: RollingHash)
        ensures
            r.well_formed(),
            r.values_of() == self@,
            r.base_of() == base,
    {
        RollingHash::new(self, base)
    }
}

/// The prefix polynomials differ by the window polynomial shifted by `base^i0`.
proof fn lemma_poly_window(values: Seq<usize>, b: int, i0: int, i1: int)
    requires
        0 <= i0 <= i1 + 1,
    ensures
        poly(values, b, i1 + 1) - poly(values, b, i0) == pow(b, i0 as nat) * window(values, b, i0, i1),
    decreases i1 - i0 + 1,
{
    if i1 < i0 {
    } else {
        lemma_poly_window(values, b, i0, i1 - 1);
        lemma_pow_adds(b, i0 as nat, (i1 - i0) as nat);
        let p0 = pow(b, i0 as nat);
        let pd = pow(b, (i1 - i0) as nat);
        let w = window(values, b, i0, i1 - 1);
        let v = values[i1] as int;
        assert(p0 * w + v * (p0 * pd) == p0 * (w + v * pd)) by (nonlinear_arith);
    }
}

/// When the stored inverse of the base really is its inverse modulo prime `m`, the hash of the
/// range `[i0, i1]` is the window polynomial of that range.
pub proof fn lemma_range_hash_window(h: &RollingHash, i0: int, i1: int, m: int)
    requires
        h.well_formed(),
        0 <= i0 <= i1 < h.values_of().len(),
        0 <= m < 2,
        (h.base_of() * inv_base(h.base_of(), spec_hash_mod(m))) % spec_hash_mod(m) == 1,
    ensures
        spec_range_hash(h, i0, i1, m) == window(h.values_of(), h.base_of(), i0, i1) % spec_hash_mod(m),
{
    let md = spec_hash_mod(m);
    let b = h.base_of();
    let vs = h.values_of();
    let w = window(vs, b, i0, i1);
    lemma_poly_window(vs, b, i0, i1);
    if i0 == 0 {
        lemma_pow0(b);
        assert(poly(vs, b, 0) == 0);
    } else {
        let ib = inv_base(b, md);
        let p1 = poly(vs, b, i1 + 1);
        let p0 = poly(vs, b, i0);
        let bi = pow(b, i0 as nat);
        let qi = pow(ib, i0 as nat);
        let d = p1 - p0;
        assert(d == bi * w);
        // (md + p1 % md - p0 % md) is congruent to d
        lemma_sub_mod_noop(p1, p0, md);
        lemma_mod_bound(p1, md);
        lemma_mod_bound(p0, md);
        let x = md + p1 % md - p0 % md;
        assert(x % md == d % md) by {
            lemma_mod_add_multiples_vanish(p1 % md - p0 % md, md);
        }
        // ((x * (qi % md)) % md == (d * qi) % md
        lemma_mul_mod_noop_right(x, qi, md);
        lemma_mul_mod_noop_left(x, qi, md);
        lemma_mul_mod_noop_left(d, qi, md);
        // d * qi == w * pow(b * ib, i0)
        lemma_pow_distributes(b, ib, i0 as nat);
        assert(d * qi == w * (bi * qi)) by (nonlinear_arith)
            requires
                d == bi * w,
        ;
        lemma_pow_mod_noop(b * ib, i0 as nat, md);
        lemma1_pow(i0 as nat);
        lemma_small_mod(1, md as nat);
        lemma_mul_mod_noop_right(w, bi * qi, md);
        assert(w * 1 == w);
    }
}

/// Ranges with the same contents have the same hash values (when the stored inverses of the
/// base are its inverses modulo both primes).
pub proof fn lemma_equal_ranges_equal_hash(a: RollingHashValue, b: RollingHashValue)
    requires
        a.in_range(),
        b.in_range(),
        a.org() == b.org(),
        forall|m: int| 0 <= m < 2 ==> (#[trigger] (a.org().base_of() * inv_base(a.org().base_of(), spec_hash_mod(m))) % spec_hash_mod(m)) == 1,
        a.range().1 - a.range().0 == b.range().1 - b.range().0,
        forall|k: int|
            0 <= k <= a.range().1 - a.range().0 ==> #[trigger] a.org().values_of()[a.range().0 + k]
                == a.org().values_of()[b.range().0 + k],
    ensures
        a.spec_get() == b.spec_get(),
{
    let h = a.org();
    let (a0, a1) = (a.range().0 as int, a.range().1 as int);
    let (b0, b1) = (b.range().0 as int, b.range().1 as int);
    assert((h.base_of() * inv_base(h.base_of(), spec_hash_mod(0))) % spec_hash_mod(0) == 1);
    assert((h.base_of() * inv_base(h.base_of(), spec_hash_mod(1))) % spec_hash_mod(1) == 1);
    lemma_range_hash_window(h, a0, a1, 0);
    lemma_range_hash_window(h, a0, a1, 1);
    lemma_range_hash_window(h, b0, b1, 0);
    lemma_range_hash_window(h, b0, b1, 1);
    lemma_window_shift(h.values_of(), h.base_of(), a0, b0, a1 - a0);
}

/// Windows over equal contents are equal.
proof fn lemma_window_shift(vs: Seq<usize>, b: int, a0: int, b0: int, len: int)
    requires
        len >= -1,
        forall|k: int| 0 <= k <= len ==> #[trigger] vs[a0 + k] == vs[b0 + k],
    ensures
        window(vs, b, a0, a0 + len) == window(vs, b, b0, b0 + len),
    decreases len + 1,
{
    if len >= 0 {
        lemma_window_shift(vs, b, a0, b0, len - 1);
        assert(vs[a0 + len] == vs[b0 + len]);
    }
}

} // verus!
