//! A fixed-size set of bits packed into 64-bit words.
use vstd::prelude::*;

verus! {

/// Bit `k` of `w`.
pub open spec fn word_bit(w: u64, k: u64) -> bool {
    (w >> k) & 1u64 == 1u64
}

/// The number of one bits of `w`.
pub open spec fn popcount(w: u64) -> nat
    decreases w,
{
    if w == 0 {
        0
    } else {
        popcount(w / 2) + (w % 2) as nat
    }
}

/// The total number of one bits of `ws[0..k]`.
pub open spec fn popcount_prefix(ws: Seq<u64>, k: int) -> nat
    decreases k,
{
    if k <= 0 {
        0
    } else {
        popcount_prefix(ws, k - 1) + popcount(ws[k - 1])
    }
}

/// `u64::count_ones`: the number of ones in the binary representation of `w`.
#[verifier::external_body]
pub(crate) fn word_count_ones(w: u64) -> (r: u32)
    ensures
        r == popcount(w),
{
    w.count_ones()
}

proof fn lemma_bit_set_word(w: u64, k: u64, j: u64)
    requires
        k < 64,
        j < 64,
    ensures
        word_bit(w | (1u64 << k), j) == (j == k || word_bit(w, j)),
        word_bit(w & !(1u64 << k), j) == (j != k && word_bit(w, j)),
{
    assert(((w | (1u64 << k)) >> j) & 1u64 == 1u64 <==> (j == k || (w >> j) & 1u64 == 1u64))
        by (bit_vector)
        requires
            k < 64,
            j < 64,
    ;
    assert(((w & !(1u64 << k)) >> j) & 1u64 == 1u64 <==> (j != k && (w >> j) & 1u64 == 1u64))
        by (bit_vector)
        requires
            k < 64,
            j < 64,
    ;
}

/// A set of `64 * x.len()` bits.
#[derive(Clone)]
pub struct BitSet {
    pub x: Vec<u64>,
}

impl BitSet {
    /// Bit `i` of the set.
    pub open spec fn spec_get(&self, i: int) -> bool {
        word_bit(self.x@[i / 64], (i % 64) as u64)
    }

    /// The number of bits.
    pub open spec fn capacity(&self) -> int {
        64 * self.x@.len() as int
    }

    /// `n` zero words.
    pub fn new(n: usize) -> (r: Self)
        ensures
            r.x@ == Seq::new(n as nat, |i: int| 0u64),
    {
        let mut x: Vec<u64> = Vec::new();
        let mut i: usize = 0;
        while i < n
            invariant
                i <= n,
                x@ == Seq::new(i as nat, |k: int| 0u64),
            decreases n - i,
        {
            x.push(0);
            i += 1;
        }
        BitSet { x }
    }

    /// Bit `i`.
    pub fn get(&self, i: usize) -> (r: bool)
        requires
            i < self.capacity(),
        ensures
            r == self.spec_get(i as int),
    {
        assert(i >> 6usize == i / 64 && i & 63usize == i % 64) by (bit_vector);
        let w = self.x[i >> 6];
        let k = (i & 63) as u64;
        assert(((w >> k) & 1u64 != 0u64) == ((w >> k) & 1u64 == 1u64)) by (bit_vector);
        (w >> k) & 1 != 0
    }

    /// Set bit `i` to `b`.
    pub fn set(&mut self, i: usize, b: bool)
        requires
            i < old(self).capacity(),
        ensures
            final(self).x@.len() == old(self).x@.len(),
            forall|j: int|
                0 <= j < old(self).capacity() ==> #[trigger] final(self).spec_get(j) == if j == i {
                    b
                } else {
                    old(self).spec_get(j)
                },
    {
        assert(i >> 6usize == i / 64 && i & 63usize == i % 64) by (bit_vector);
        let wi = i >> 6;
        let k = (i & 63) as u64;
        let w = self.x[wi];
        let nw = if b {
            w | (1u64 << k)
        } else {
            w & !(1u64 << k)
        };
        self.x.set(wi, nw);
        proof {
            assert forall|j: int| 0 <= j < old(self).capacity() implies #[trigger] self.spec_get(j) == if j == i {
                b
            } else {
                old(self).spec_get(j)
            } by {
                lemma_bit_set_word(w, k, (j % 64) as u64);
                if j / 64 == wi as int {
                    if j % 64 == k as int {
                        assert(j == i);
                    }
                }
            }
        }
    }

    /// The number of one bits.
    pub fn count_ones(&self) -> (r: u32)
        requires
            popcount_prefix(self.x@, self.x@.len() as int) <= u32::MAX,
        ensures
            r == popcount_prefix(self.x@, self.x@.len() as int),
    {
        let mut total: u32 = 0;
        let mut i: usize = 0;
        while i < self.x.len()
            invariant
                i <= self.x@.len(),
                total == popcount_prefix(self.x@, i as int),
                popcount_prefix(self.x@, self.x@.len() as int) <= u32::MAX,
            decreases self.x@.len() - i,
        {
            let c = word_count_ones(self.x[i]);
            proof {
                lemma_prefix_monotone(self.x@, i + 1, self.x@.len() as int);
            }
            total = total + c;
            i += 1;
        }
        total
    }

    /// Word-wise `&` over the common length.
    pub fn bitand(self, rhs: Self) -> (r: Self)
        ensures
            r.x@.len() == min_len(self.x@.len(), rhs.x@.len()),
            forall|i: int| 0 <= i < r.x@.len() ==> #[trigger] r.x@[i] == self.x@[i] & rhs.x@[i],
    {
        let n = if self.x.len() < rhs.x.len() {
            self.x.len()
        } else {
            rhs.x.len()
        };
        let mut x: Vec<u64> = Vec::new();
        let mut i: usize = 0;
        while i < n
            invariant
                n <= self.x@.len(),
                n <= rhs.x@.len(),
                i <= n,
                x@.len() == i,
                forall|k: int| 0 <= k < i ==> #[trigger] x@[k] == self.x@[k] & rhs.x@[k],
            decreases n - i,
        {
            x.push(self.x[i] & rhs.x[i]);
            i += 1;
        }
        BitSet { x }
    }

    /// Word-wise `|` over the common length.
    pub fn bitor(self, rhs: Self) -> (r: Self)
        ensures
            r.x@.len() == min_len(self.x@.len(), rhs.x@.len()),
            forall|i: int| 0 <= i < r.x@.len() ==> #[trigger] r.x@[i] == self.x@[i] | rhs.x@[i],
    {
        let n = if self.x.len() < rhs.x.len() {
            self.x.len()
        } else {
            rhs.x.len()
        };
        let mut x: Vec<u64> = Vec::new();
        let mut i: usize = 0;
        while i < n
            invariant
                n <= self.x@.len(),
                n <= rhs.x@.len(),
                i <= n,
                x@.len() == i,
                forall|k: int| 0 <= k < i ==> #[trigger] x@[k] == self.x@[k] | rhs.x@[k],
            decreases n - i,
        {
            x.push(self.x[i] | rhs.x[i]);
            i += 1;
        }
        BitSet { x }
    }

    /// Word-wise `^` over the common length.
    pub fn bitxor(self, rhs: Self) -> (r: Self)
        ensures
            r.x@.len() == min_len(self.x@.len(), rhs.x@.len()),
            forall|i: int| 0 <= i < r.x@.len() ==> #[trigger] r.x@[i] == self.x@[i] ^ rhs.x@[i],
    {
        let n = if self.x.len() < rhs.x.len() {
            self.x.len()
        } else {
            rhs.x.len()
        };
        let mut x: Vec<u64> = Vec::new();
        let mut i: usize = 0;
        while i < n
            invariant
                n <= self.x@.len(),
                n <= rhs.x@.len(),
                i <= n,
                x@.len() == i,
                forall|k: int| 0 <= k < i ==> #[trigger] x@[k] == self.x@[k] ^ rhs.x@[k],
            decreases n - i,
        {
            x.push(self.x[i] ^ rhs.x[i]);
            i += 1;
        }
        BitSet { x }
    }

    /// Word-wise `&=` over the common length; words beyond it are kept.
    pub fn bitand_assign(&mut self, rhs: Self)
        ensures
            final(self).x@.len() == old(self).x@.len(),
            forall|i: int|
                0 <= i < old(self).x@.len() ==> #[trigger] final(self).x@[i] == if i < rhs.x@.len() {
                    old(self).x@[i] & rhs.x@[i]
                } else {
                    old(self).x@[i]
                },
    {
        let n = if self.x.len() < rhs.x.len() {
            self.x.len()
        } else {
            rhs.x.len()
        };
        let mut i: usize = 0;
        while i < n
            invariant
                n <= old(self).x@.len(),
                n <= rhs.x@.len(),
                n == min_len(old(self).x@.len(), rhs.x@.len()),
                self.x@.len() == old(self).x@.len(),
                i <= n,
                forall|k: int|
                    0 <= k < self.x@.len() ==> #[trigger] self.x@[k] == if k < i {
                        old(self).x@[k] & rhs.x@[k]
                    } else {
                        old(self).x@[k]
                    },
            decreases n - i,
        {
            let v = self.x[i] & rhs.x[i];
            self.x.set(i, v);
            i += 1;
        }
    }

    /// Word-wise `|=` over the common length; words beyond it are kept.
    pub fn bitor_assign(&mut self, rhs: Self)
        ensures
            final(self).x@.len() == old(self).x@.len(),
            forall|i: int|
                0 <= i < old(self).x@.len() ==> #[trigger] final(self).x@[i] == if i < rhs.x@.len() {
                    old(self).x@[i] | rhs.x@[i]
                } else {
                    old(self).x@[i]
                },
    {
        let n = if self.x.len() < rhs.x.len() {
            self.x.len()
        } else {
            rhs.x.len()
        };
        let mut i: usize = 0;
        while i < n
            invariant
                n <= old(self).x@.len(),
                n <= rhs.x@.len(),
                n == min_len(old(self).x@.len(), rhs.x@.len()),
                self.x@.len() == old(self).x@.len(),
                i <= n,
                forall|k: int|
                    0 <= k < self.x@.len() ==> #[trigger] self.x@[k] == if k < i {
                        old(self).x@[k] | rhs.x@[k]
                    } else {
                        old(self).x@[k]
                    },
            decreases n - i,
        {
            let v = self.x[i] | rhs.x[i];
            self.x.set(i, v);
            i += 1;
        }
    }

    /// Word-wise `^=` over the common length; words beyond it are kept.
    pub fn bitxor_assign(&mut self, rhs: Self)
        ensures
            final(self).x@.len() == old(self).x@.len(),
            forall|i: int|
                0 <= i < old(self).x@.len() ==> #[trigger] final(self).x@[i] == if i < rhs.x@.len() {
                    old(self).x@[i] ^ rhs.x@[i]
                } else {
                    old(self).x@[i]
                },
    {
        let n = if self.x.len() < rhs.x.len() {
            self.x.len()
        } else {
            rhs.x.len()
        };
        let mut i: usize = 0;
        while i < n
            invariant
                n <= old(self).x@.len(),
                n <= rhs.x@.len(),
                n == min_len(old(self).x@.len(), rhs.x@.len()),
                self.x@.len() == old(self).x@.len(),
                i <= n,
                forall|k: int|
                    0 <= k < self.x@.len() ==> #[trigger] self.x@[k] == if k < i {
                        old(self).x@[k] ^ rhs.x@[k]
                    } else {
                        old(self).x@[k]
                    },
            decreases n - i,
        {
            let v = self.x[i] ^ rhs.x[i];
            self.x.set(i, v);
            i += 1;
        }
    }
}

/// The smaller of two lengths.
pub open spec fn min_len(a: nat, b: nat) -> nat {
    if a < b {
        a
    } else {
        b
    }
}

proof fn lemma_prefix_monotone(ws: Seq<u64>, a: int, b: int)
    requires
        0 <= a <= b,
    ensures
        popcount_prefix(ws, a) <= popcount_prefix(ws, b),
    decreases b - a,
{
    if a < b {
        lemma_prefix_monotone(ws, a, b - 1);
    }
}

} // verus!
