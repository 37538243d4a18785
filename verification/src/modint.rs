//! Integers modulo a fixed modulus (`ModInt`) or a modulus chosen at run time (`DynModInt`).
use vstd::prelude::*;
use vstd::arithmetic::power::*;
use vstd::arithmetic::div_mod::*;
use vstd::arithmetic::mul::*;
use crate::gcd::{ext_gcd, spec_ext_gcd, spec_gcd};

verus! {

/// The largest supported modulus: products of two residues fit in an `i64`.
pub const MAX_MODULUS: u64 = 3037000500;

/// One step of binary exponentiation keeps `ret * mul^p` unchanged modulo `m`.
pub proof fn lemma_modpow_step(ret: int, mul: int, p: nat, m: int)
    requires
        m > 0,
    ensures
        ((if p % 2 == 1 { (ret * mul) % m } else { ret }) * pow((mul * mul) % m, p / 2)) % m
            == (ret * pow(mul, p)) % m,
{
    let h = p / 2;
    let b = p % 2;
    assert(p == 2 * h + b);
    lemma_pow_adds(mul, 2 * h, b);
    lemma_pow_multiplies(mul, 2, h);
    assert(pow(mul, 2) == mul * mul) by {
        reveal(pow);
        assert(pow(mul, 1) == mul * pow(mul, 0));
    }
    let q = pow((mul * mul) % m, h);
    lemma_pow_mod_noop(mul * mul, h, m);
    // q is congruent to pow(mul * mul, h)
    let big = pow(mul * mul, h);
    assert(pow(mul, p) == big * pow(mul, b));
    if b == 1 {
        assert(pow(mul, 1) == mul) by {
            reveal(pow);
            assert(pow(mul, 0) == 1);
        }
        // ((ret * mul) % m * q) % m == (ret * mul * q) % m == (ret * mul * big) % m
        lemma_mul_mod_noop_left(ret * mul, q, m);
        lemma_mul_mod_noop_right(ret * mul, q, m);
        lemma_mul_mod_noop_right(ret * mul, big, m);
        assert(ret * (big * mul) == (ret * mul) * big) by (nonlinear_arith);
    } else {
        assert(b == 0);
        assert(pow(mul, 0) == 1) by {
            reveal(pow);
        }
        lemma_mul_mod_noop_right(ret, q, m);
        lemma_mul_mod_noop_right(ret, big, m);
    }
}

/// An integer modulo `MOD`, kept in `[0, MOD)`.
#[derive(Clone, Copy)]
pub struct ModInt<const MOD: u64> {
    x: i64,
}

impl<const MOD: u64> View for ModInt<MOD> {
    type V = int;

    closed spec fn view(&self) -> int {
        self.x as int
    }
}

impl<const MOD: u64> ModInt<MOD> {
    /// The value is a residue in `[0, MOD)`.
    #[verifier::type_invariant]
    pub closed spec fn inv(self) -> bool {
        0 <= self.x < MOD
    }

    /// The value of a residue lies in `[0, MOD)`.
    pub proof fn lemma_range(self)
        requires
            self.inv(),
        ensures
            0 <= self@ < MOD,
    {
    }

    /// The modulus is supported.
    pub open spec fn valid_modulus() -> bool {
        2 <= MOD <= MAX_MODULUS
    }

    /// The modulus as an integer.
    pub open spec fn m() -> int {
        MOD as int
    }

    /// The representative in `[0, MOD)`.
    pub fn val(&self) -> (r: i64)
        ensures
            r == self@,
            0 <= r < MOD,
    {
        proof {
            use_type_invariant(self);
        }
        self.x
    }

    /// The residue of `sig`.
    pub fn new(sig: i64) -> (r: Self)
        requires
            Self::valid_modulus(),
            sig < 0 ==> -sig + MOD - 1 <= i64::MAX,
        ensures
            r@ == sig as int % Self::m(),
    {
        let m = MOD as i64;
        let mut s = sig;
        if s < 0 {
            let ab = (-s + (m - 1)) / m;
            assert(ab * m <= -s + m - 1 && ab * m >= -s) by (nonlinear_arith)
                requires
                    ab == (-s + m - 1) / (m as int),
                    m >= 2,
                    s < 0,
            ;
            proof {
                lemma_mod_multiples_vanish(ab as int, s as int, m as int);
                assert(m * ab == ab * m) by (nonlinear_arith);
            }
            s += ab * m;
        }
        assert(0 <= s % m < m) by (nonlinear_arith)
            requires
                m >= 2,
        ;
        ModInt { x: s % m }
    }

    /// Zero.
    pub fn zero() -> (r: Self)
        requires
            Self::valid_modulus(),
        ensures
            r@ == 0,
    {
        ModInt { x: 0 }
    }

    /// One.
    pub fn one() -> (r: Self)
        requires
            Self::valid_modulus(),
        ensures
            r@ == 1,
    {
        ModInt { x: 1 }
    }

    /// Whether the value is zero.
    pub fn is_zero(&self) -> (r: bool)
        ensures
            r == (self@ == 0),
    {
        self.x == 0
    }

    /// Set the value to zero.
    pub fn set_zero(&mut self)
        requires
            Self::valid_modulus(),
        ensures
            final(self)@ == 0,
    {
        *self = ModInt { x: 0 };
    }

    /// A multiplicative inverse when the value is coprime to the modulus:
    /// `self * inverse` is congruent to `gcd(self, MOD)`.
    pub fn inverse(&self) -> (r: Self)
        requires
            Self::valid_modulus(),
        ensures
            r@ == spec_ext_gcd(self@ as nat, MOD as nat).0 % Self::m(),
            (self@ * r@) % Self::m() == spec_gcd(self@ as nat, MOD as nat) as int % Self::m(),
    {
        proof {
            use_type_invariant(self);
        }
        let pq = ext_gcd(self.x, MOD as i64);
        let r = Self::new(pq.0);
        proof {
            let m = MOD as int;
            let x = self@;
            let p = pq.0 as int;
            let q = pq.1 as int;
            assert(x * p + m * q == spec_gcd(x as nat, m as nat));
            lemma_mul_mod_noop_right(x, p, m);
            assert((m * q) % m == 0) by {
                lemma_mod_multiples_basic(q, m);
                assert(m * q == q * m) by (nonlinear_arith);
            }
            lemma_add_mod_noop(x * p, m * q, m);
            lemma_mod_twice(x * p, m);
            assert(0 <= (x * p) % m < m) by (nonlinear_arith)
                requires
                    m > 0,
            ;
            lemma_small_mod(((x * p) % m) as nat, m as nat);
        }
        r
    }

    /// `self` raised to the power `p`.
    pub fn pow(self, p: usize) -> (r: Self)
        requires
            Self::valid_modulus(),
        ensures
            r@ == pow(self@, p as nat) % Self::m(),
    {
        proof {
            use_type_invariant(self);
        }
        let ghost m = MOD as int;
        let mut ret = Self::one();
        let mut mul = self;
        let ghost p0 = p;
        let mut p = p;
        proof {
            assert(pow(self@, 0) == 1) by {
                reveal(pow);
            }
        }
        while p > 0
            invariant
                Self::valid_modulus(),
                m == MOD,
                (ret@ * pow(mul@, p as nat)) % m == pow(self@, p0 as nat) % m,
            decreases p,
        {
            proof {
                lemma_modpow_step(ret@, mul@, p as nat, m);
            }
            assert((p & 1 != 0) == (p % 2 == 1)) by (bit_vector);
            if p & 1 != 0 {
                ret = ret.mul(mul);
            }
            assert(p >> 1 == p / 2) by (bit_vector);
            p >>= 1;
            mul = mul.mul(mul);
        }
        proof {
            assert(pow(mul@, 0) == 1) by {
                reveal(pow);
            }
            use_type_invariant(ret);
            lemma_small_mod(ret@ as nat, m as nat);
        }
        ret
    }

    /// `self + rhs`.
    pub fn add(self, rhs: Self) -> (r: Self)
        requires
            Self::valid_modulus(),
        ensures
            r@ == (self@ + rhs@) % Self::m(),
    {
        proof {
            use_type_invariant(self);
            use_type_invariant(rhs);
        }
        Self::new(self.x + rhs.x)
    }

    /// `self - rhs`.
    pub fn sub(self, rhs: Self) -> (r: Self)
        requires
            Self::valid_modulus(),
        ensures
            r@ == (self@ - rhs@) % Self::m(),
    {
        proof {
            use_type_invariant(self);
            use_type_invariant(rhs);
        }
        Self::new(self.x - rhs.x)
    }

    /// `self * rhs`.
    pub fn mul(self, rhs: Self) -> (r: Self)
        requires
            Self::valid_modulus(),
        ensures
            r@ == (self@ * rhs@) % Self::m(),
    {
        proof {
            use_type_invariant(self);
            use_type_invariant(rhs);
        }
        assert(0 <= self.x * rhs.x <= (MAX_MODULUS - 1) * (MAX_MODULUS - 1)) by (nonlinear_arith)
            requires
                0 <= self.x < MOD,
                0 <= rhs.x < MOD,
                MOD <= MAX_MODULUS,
        ;
        Self::new(self.x * rhs.x)
    }

    /// `self / rhs`: `self` times the inverse of `rhs`.
    pub fn div(self, rhs: Self) -> (r: Self)
        requires
            Self::valid_modulus(),
        ensures
            r@ == (self@ * (spec_ext_gcd(rhs@ as nat, MOD as nat).0 % Self::m())) % Self::m(),
    {
        let inv = rhs.inverse();
        self.mul(inv)
    }

    /// `*self += rhs`.
    pub fn add_assign(&mut self, rhs: Self)
        requires
            Self::valid_modulus(),
        ensures
            final(self)@ == (old(self)@ + rhs@) % Self::m(),
    {
        *self = self.add(rhs);
    }

    /// `*self -= rhs`.
    pub fn sub_assign(&mut self, rhs: Self)
        requires
            Self::valid_modulus(),
        ensures
            final(self)@ == (old(self)@ - rhs@) % Self::m(),
    {
        *self = self.sub(rhs);
    }

    /// `*self *= rhs`.
    pub fn mul_assign(&mut self, rhs: Self)
        requires
            Self::valid_modulus(),
        ensures
            final(self)@ == (old(self)@ * rhs@) % Self::m(),
    {
        *self = self.mul(rhs);
    }

    /// `*self /= rhs`.
    pub fn div_assign(&mut self, rhs: Self)
        requires
            Self::valid_modulus(),
        ensures
            final(self)@ == (old(self)@ * (spec_ext_gcd(rhs@ as nat, MOD as nat).0 % Self::m()))
                % Self::m(),
    {
        *self = self.div(rhs);
    }

    /// The residue of an `i64`.
    pub fn from_i64(x: i64) -> (r: Self)
        requires
            Self::valid_modulus(),
            x < 0 ==> -x + MOD - 1 <= i64::MAX,
        ensures
            r@ == x as int % Self::m(),
    {
        Self::new(x)
    }

    /// The residue of an `i32`.
    pub fn from_i32(x: i32) -> (r: Self)
        requires
            Self::valid_modulus(),
        ensures
            r@ == x as int % Self::m(),
    {
        Self::new(x as i64)
    }

    /// The residue of a `usize` reinterpreted as an `i64`.
    pub fn from_usize(x: usize) -> (r: Self)
        requires
            Self::valid_modulus(),
            x <= i64::MAX,
        ensures
            r@ == x as int % Self::m(),
    {
        Self::new(x as i64)
    }

    /// The representative as a `usize`.
    pub fn into_usize(self) -> (r: usize)
        ensures
            r == self@ as usize,
    {
        proof {
            use_type_invariant(self);
        }
        self.x as usize
    }
}

} // verus!

verus! {

/// An integer modulo a modulus chosen at run time and carried by the value.
#[derive(Clone, Copy)]
pub struct DynModInt {
    x: i64,
    md: i64,
}

impl View for DynModInt {
    type V = int;

    closed spec fn view(&self) -> int {
        self.x as int
    }
}

impl DynModInt {
    #[verifier::type_invariant]
    spec fn inv(self) -> bool {
        &&& 2 <= self.md <= MAX_MODULUS
        &&& 0 <= self.x < self.md
    }

    /// The modulus of this value.
    pub closed spec fn modulus(&self) -> int {
        self.md as int
    }

    /// A modulus that the type supports.
    pub open spec fn valid_modulus(md: int) -> bool {
        2 <= md <= MAX_MODULUS
    }

    /// The modulus of this value.
    pub fn get_mod(&self) -> (r: i64)
        ensures
            r == self.modulus(),
            Self::valid_modulus(r as int),
    {
        proof {
            use_type_invariant(self);
        }
        self.md
    }

    /// The representative in `[0, modulus)`.
    pub fn val(&self) -> (r: i64)
        ensures
            r == self@,
            0 <= r < self.modulus(),
    {
        proof {
            use_type_invariant(self);
        }
        self.x
    }

    /// The residue of `sig` modulo `md`.
    pub fn new(sig: i64, md: i64) -> (r: Self)
        requires
            Self::valid_modulus(md as int),
            sig < 0 ==> -sig + md - 1 <= i64::MAX,
        ensures
            r@ == sig as int % md as int,
            r.modulus() == md,
    {
        let m = md;
        let mut s = sig;
        if s < 0 {
            let ab = (-s + (m - 1)) / m;
            assert(ab * m <= -s + m - 1 && ab * m >= -s) by (nonlinear_arith)
                requires
                    ab == (-s + m - 1) / (m as int),
                    m >= 2,
                    s < 0,
            ;
            proof {
                lemma_mod_multiples_vanish(ab as int, s as int, m as int);
                assert(m * ab == ab * m) by (nonlinear_arith);
            }
            s += ab * m;
        }
        assert(0 <= s % m < m) by (nonlinear_arith)
            requires
                m >= 2,
        ;
        DynModInt { x: s % m, md }
    }

    /// Zero modulo `md`.
    pub fn zero(md: i64) -> (r: Self)
        requires
            Self::valid_modulus(md as int),
        ensures
            r@ == 0,
            r.modulus() == md,
    {
        DynModInt { x: 0, md }
    }

    /// One modulo `md`.
    pub fn one(md: i64) -> (r: Self)
        requires
            Self::valid_modulus(md as int),
        ensures
            r@ == 1,
            r.modulus() == md,
    {
        DynModInt { x: 1, md }
    }

    /// Whether the value is zero.
    pub fn is_zero(&self) -> (r: bool)
        ensures
            r == (self@ == 0),
    {
        self.x == 0
    }

    /// Set the value to zero.
    pub fn set_zero(&mut self)
        ensures
            final(self)@ == 0,
            final(self).modulus() == old(self).modulus(),
    {
        proof {
            use_type_invariant(&*self);
        }
        *self = DynModInt { x: 0, md: self.md };
    }

    /// `self * inverse` is congruent to `gcd(self, modulus)`.
    pub fn inverse(&self) -> (r: Self)
        ensures
            r.modulus() == self.modulus(),
            r@ == spec_ext_gcd(self@ as nat, self.modulus() as nat).0 % self.modulus(),
            (self@ * r@) % self.modulus() == spec_gcd(self@ as nat, self.modulus() as nat) as int
                % self.modulus(),
    {
        proof {
            use_type_invariant(self);
        }
        let pq = ext_gcd(self.x, self.md);
        let r = Self::new(pq.0, self.md);
        proof {
            let m = self.md as int;
            let x = self@;
            let p = pq.0 as int;
            let q = pq.1 as int;
            assert(x * p + m * q == spec_gcd(x as nat, m as nat));
            lemma_mul_mod_noop_right(x, p, m);
            assert((m * q) % m == 0) by {
                lemma_mod_multiples_basic(q, m);
                assert(m * q == q * m) by (nonlinear_arith);
            }
            lemma_add_mod_noop(x * p, m * q, m);
            lemma_mod_twice(x * p, m);
            assert(0 <= (x * p) % m < m) by (nonlinear_arith)
                requires
                    m > 0,
            ;
            lemma_small_mod(((x * p) % m) as nat, m as nat);
        }
        r
    }

    /// `self` raised to the power `p`.
    pub fn pow(self, p: usize) -> (r: Self)
        ensures
            r.modulus() == self.modulus(),
            r@ == pow(self@, p as nat) % self.modulus(),
    {
        proof {
            use_type_invariant(self);
        }
        let ghost m = self.md as int;
        let mut ret = Self::one(self.md);
        let mut mul = self;
        let ghost p0 = p;
        let mut p = p;
        proof {
            assert(pow(self@, 0) == 1) by {
                reveal(pow);
            }
        }
        while p > 0
            invariant
                m == self.modulus(),
                ret.modulus() == m,
                mul.modulus() == m,
                (ret@ * pow(mul@, p as nat)) % m == pow(self@, p0 as nat) % m,
            decreases p,
        {
            proof {
                use_type_invariant(mul);
                lemma_modpow_step(ret@, mul@, p as nat, m);
            }
            assert((p & 1 != 0) == (p % 2 == 1)) by (bit_vector);
            if p & 1 != 0 {
                ret = ret.mul(mul);
            }
            assert(p >> 1 == p / 2) by (bit_vector);
            p >>= 1;
            mul = mul.mul(mul);
        }
        proof {
            assert(pow(mul@, 0) == 1) by {
                reveal(pow);
            }
            use_type_invariant(ret);
            lemma_small_mod(ret@ as nat, m as nat);
        }
        ret
    }

    /// `self + rhs`.
    pub fn add(self, rhs: Self) -> (r: Self)
        requires
            self.modulus() == rhs.modulus(),
        ensures
            r.modulus() == self.modulus(),
            r@ == (self@ + rhs@) % self.modulus(),
    {
        proof {
            use_type_invariant(self);
            use_type_invariant(rhs);
        }
        Self::new(self.x + rhs.x, self.md)
    }

    /// `self - rhs`.
    pub fn sub(self, rhs: Self) -> (r: Self)
        requires
            self.modulus() == rhs.modulus(),
        ensures
            r.modulus() == self.modulus(),
            r@ == (self@ - rhs@) % self.modulus(),
    {
        proof {
            use_type_invariant(self);
            use_type_invariant(rhs);
        }
        Self::new(self.x - rhs.x, self.md)
    }

    /// `self * rhs`.
    pub fn mul(self, rhs: Self) -> (r: Self)
        requires
            self.modulus() == rhs.modulus(),
        ensures
            r.modulus() == self.modulus(),
            r@ == (self@ * rhs@) % self.modulus(),
    {
        proof {
            use_type_invariant(self);
            use_type_invariant(rhs);
        }
        assert(0 <= self.x * rhs.x <= (MAX_MODULUS - 1) * (MAX_MODULUS - 1)) by (nonlinear_arith)
            requires
                0 <= self.x < self.md,
                0 <= rhs.x < self.md,
                self.md <= MAX_MODULUS,
        ;
        Self::new(self.x * rhs.x, self.md)
    }

    /// `self / rhs`: `self` times the inverse of `rhs`.
    pub fn div(self, rhs: Self) -> (r: Self)
        requires
            self.modulus() == rhs.modulus(),
        ensures
            r.modulus() == self.modulus(),
            r@ == (self@ * (spec_ext_gcd(rhs@ as nat, self.modulus() as nat).0 % self.modulus()))
                % self.modulus(),
    {
        let inv = rhs.inverse();
        self.mul(inv)
    }

    /// `*self += rhs`.
    pub fn add_assign(&mut self, rhs: Self)
        requires
            old(self).modulus() == rhs.modulus(),
        ensures
            final(self).modulus() == old(self).modulus(),
            final(self)@ == (old(self)@ + rhs@) % old(self).modulus(),
    {
        *self = self.add(rhs);
    }

    /// `*self -= rhs`.
    pub fn sub_assign(&mut self, rhs: Self)
        requires
            old(self).modulus() == rhs.modulus(),
        ensures
            final(self).modulus() == old(self).modulus(),
            final(self)@ == (old(self)@ - rhs@) % old(self).modulus(),
    {
        *self = self.sub(rhs);
    }

    /// `*self *= rhs`.
    pub fn mul_assign(&mut self, rhs: Self)
        requires
            old(self).modulus() == rhs.modulus(),
        ensures
            final(self).modulus() == old(self).modulus(),
            final(self)@ == (old(self)@ * rhs@) % old(self).modulus(),
    {
        *self = self.mul(rhs);
    }

    /// `*self /= rhs`.
    pub fn div_assign(&mut self, rhs: Self)
        requires
            old(self).modulus() == rhs.modulus(),
        ensures
            final(self).modulus() == old(self).modulus(),
            final(self)@ == (old(self)@ * (spec_ext_gcd(rhs@ as nat, old(self).modulus() as nat).0
                % old(self).modulus())) % old(self).modulus(),
    {
        *self = self.div(rhs);
    }

    /// The residue of an `i64` modulo `md`.
    pub fn from_i64(x: i64, md: i64) -> (r: Self)
        requires
            Self::valid_modulus(md as int),
            x < 0 ==> -x + md - 1 <= i64::MAX,
        ensures
            r.modulus() == md,
            r@ == x as int % md as int,
    {
        Self::new(x, md)
    }

    /// The residue of a `usize` modulo `md`.
    pub fn from_usize(x: usize, md: i64) -> (r: Self)
        requires
            Self::valid_modulus(md as int),
            x <= i64::MAX,
        ensures
            r.modulus() == md,
            r@ == x as int % md as int,
    {
        Self::new(x as i64, md)
    }

    /// The representative as a `usize`.
    pub fn into_usize(self) -> (r: usize)
        ensures
            r == self@ as usize,
    {
        proof {
            use_type_invariant(self);
        }
        self.x as usize
    }
}

} // verus!
