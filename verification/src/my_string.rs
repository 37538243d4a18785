//! A string stored as a vector of characters, indexable in constant time.
use vstd::prelude::*;
use crate::ordering::{sort_vec, sorted};
use vstd::std_specs::iter::IteratorSpec;

verus! {

/// Number of bytes of the UTF-8 encoding of `c`.
pub open spec fn utf8_width(c: char) -> int {
    if (c as u32) < 0x80 {
        1
    } else if (c as u32) < 0x800 {
        2
    } else if (c as u32) < 0x10000 {
        3
    } else {
        4
    }
}

/// Number of bytes of the UTF-8 encoding of `s[0..i]`.
pub open spec fn byte_offset(s: Seq<char>, i: int) -> int
    decreases i,
{
    if i <= 0 {
        0
    } else {
        byte_offset(s, i - 1) + utf8_width(s[i - 1])
    }
}

/// `p` occurs in `s` starting at character position `i`.
pub open spec fn occurs_at(s: Seq<char>, p: Seq<char>, i: int) -> bool {
    &&& 0 <= i
    &&& i + p.len() <= s.len()
    &&& forall|j: int| 0 <= j < p.len() ==> #[trigger] s[i + j] == p[j]
}

proof fn lemma_byte_offset_bounds(s: Seq<char>, i: int)
    requires
        0 <= i,
    ensures
        i <= byte_offset(s, i) <= 4 * i,
    decreases i,
{
    if i > 0 {
        lemma_byte_offset_bounds(s, i - 1);
    }
}

fn char_width(c: char) -> (w: usize)
    ensures
        w == utf8_width(c),
{
    let v = c as u32;
    if v < 0x80 {
        1
    } else if v < 0x800 {
        2
    } else if v < 0x10000 {
        3
    } else {
        4
    }
}

/// A string held as a vector of `char`.
pub struct Str {
    vc: Vec<char>,
}

impl View for Str {
    type V = Seq<char>;

    closed spec fn view(&self) -> Seq<char> {
        self.vc@
    }
}

impl Str {
    /// The empty string.
    pub fn new() -> (r: Self)
        ensures
            r@ == Seq::<char>::empty(),
    {
        Str { vc: Vec::new() }
    }

    /// The characters of `s`.
    pub fn from(s: &str) -> (r: Self)
        ensures
            r@ == s@,
    {
        broadcast use vstd::string::axiom_spec_iter;

        let mut vc: Vec<char> = Vec::new();
        for c in it: s.chars()
            invariant
                vc@ == it.seq().take(it.index() as int),
                it.seq() == s@,
        {
            vc.push(c);
            assert(vc@ =~= it.seq().take(it.index() + 1));
        }
        assert(vc@ =~= s@);
        Str { vc }
    }

    /// Number of characters.
    pub fn len(&self) -> (r: usize)
        ensures
            r == self@.len(),
    {
        self.vc.len()
    }

    /// Remove every character.
    pub fn clear(&mut self)
        ensures
            final(self)@ == Seq::<char>::empty(),
    {
        self.vc.clear();
    }

    /// Whether there is no character.
    pub fn is_empty(&self) -> (r: bool)
        ensures
            r == (self@.len() == 0),
    {
        self.vc.len() == 0
    }

    /// The first character.
    pub fn first(&self) -> (r: Option<&char>)
        ensures
            r == if self@.len() == 0 {
                None::<&char>
            } else {
                Some(&self@[0])
            },
    {
        self.vc.as_slice().first()
    }

    /// The last character.
    pub fn last(&self) -> (r: Option<&char>)
        ensures
            r == if self@.len() == 0 {
                None::<&char>
            } else {
                Some(&self@.last())
            },
    {
        self.vc.as_slice().last()
    }

    /// Append a character.
    pub fn push(&mut self, c: char)
        ensures
            final(self)@ == old(self)@.push(c),
    {
        self.vc.push(c);
    }

    /// Append the characters of `s`.
    pub fn push_str(&mut self, s: &str)
        ensures
            final(self)@ == old(self)@ + s@,
    {
        let t = Str::from(s);
        let mut i: usize = 0;
        while i < t.vc.len()
            invariant
                i <= t@.len(),
                t@ == s@,
                self@ == old(self)@ + t@.take(i as int),
            decreases t@.len() - i,
        {
            self.push(t.vc[i]);
            assert(self@ =~= old(self)@ + t@.take(i + 1));
            i += 1;
        }
        assert(t@.take(t@.len() as int) =~= t@);
    }

    /// Remove and return the last character.
    pub fn pop(&mut self) -> (r: Option<char>)
        ensures
            old(self)@.len() == 0 ==> r is None && final(self)@ == old(self)@,
            old(self)@.len() > 0 ==> r == Some(old(self)@.last()) && final(self)@
                == old(self)@.drop_last(),
    {
        self.vc.pop()
    }

    /// The characters, by value.
    pub fn into_iter(self) -> (r: std::vec::IntoIter<char>)
        ensures
            r.remaining() == self@,
    {
        broadcast use vstd::std_specs::vec::axiom_spec_into_iter;

        self.vc.into_iter()
    }

    /// The characters, by reference.
    pub fn iter(&self) -> (r: std::slice::Iter<'_, char>)
        ensures
            r.remaining() == self@.as_ref(),
    {
        broadcast use vstd::std_specs::slice::axiom_spec_slice_iter;

        self.vc.as_slice().iter()
    }

    /// Exchange the characters at `a` and `b`.
    pub fn swap(&mut self, a: usize, b: usize)
        requires
            a < old(self)@.len(),
            b < old(self)@.len(),
        ensures
            final(self)@ == old(self)@.update(a as int, old(self)@[b as int]).update(
                b as int,
                old(self)@[a as int],
            ),
    {
        let x = self.vc[a];
        let y = self.vc[b];
        self.vc.set(a, y);
        self.vc.set(b, x);
    }

    /// Reverse the order of the characters.
    pub fn reverse(&mut self)
        ensures
            final(self)@ == old(self)@.reverse(),
    {
        let n = self.vc.len();
        let mut i: usize = 0;
        while i < n / 2
            invariant
                n == self@.len(),
                n == old(self)@.len(),
                i <= n / 2,
                forall|k: int|
                    0 <= k < n ==> #[trigger] self@[k] == if k < i || k >= n - i {
                        old(self)@[n - 1 - k]
                    } else {
                        old(self)@[k]
                    },
            decreases n / 2 - i,
        {
            let x = self.vc[i];
            let y = self.vc[n - 1 - i];
            self.vc.set(i, y);
            self.vc.set(n - 1 - i, x);
            i += 1;
        }
        assert(self@ =~= old(self)@.reverse());
    }

    /// The byte offset of the first occurrence of `p`.
    pub fn find(&self, p: &Str) -> (r: Option<usize>)
        requires
            4 * self@.len() <= usize::MAX,
        ensures
            match r {
                Some(off) => exists|i: int|
                    occurs_at(self@, p@, i) && off == byte_offset(self@, i) && forall|k: int|
                        0 <= k < i ==> !#[trigger] occurs_at(self@, p@, k),
                None => forall|k: int| !#[trigger] occurs_at(self@, p@, k),
            },
    {
        let n = self.vc.len();
        let m = p.vc.len();
        if m > n {
            return None;
        }
        let mut i: usize = 0;
        let mut off: usize = 0;
        while i <= n - m
            invariant
                n == self@.len(),
                m == p@.len(),
                m <= n,
                i <= n - m + 1,
                off == byte_offset(self@, i as int),
                off <= 4 * i,
                4 * n <= usize::MAX,
                forall|k: int| 0 <= k < i ==> !#[trigger] occurs_at(self@, p@, k),
            decreases n - m + 1 - i,
        {
            let mut j: usize = 0;
            while j < m && self.vc[i + j] == p.vc[j]
                invariant
                    n == self@.len(),
                    m == p@.len(),
                    i + m <= n,
                    j <= m,
                    forall|t: int| 0 <= t < j ==> self@[i + t] == p@[t],
                decreases m - j,
            {
                j += 1;
            }
            if j == m {
                return Some(off);
            }
            if i == n - m {
                proof {
                    assert forall|k: int| !#[trigger] occurs_at(self@, p@, k) by {
                        if k == i {
                            assert(self@[i + j] != p@[j as int]);
                        }
                    }
                }
                return None;
            }
            proof {
                assert(!occurs_at(self@, p@, i as int)) by {
                    assert(self@[i + j] != p@[j as int]);
                }
            }
            assert(i < n);
            let w = char_width(self.vc[i]);
            assert(off + w <= 4 * (i + 1));
            off = off + w;
            i += 1;
        }
        None
    }

    /// The byte offset of the last occurrence of `p`.
    pub fn rfind(&self, p: &Str) -> (r: Option<usize>)
        requires
            4 * self@.len() <= usize::MAX,
        ensures
            match r {
                Some(off) => exists|i: int|
                    occurs_at(self@, p@, i) && off == byte_offset(self@, i) && forall|k: int|
                        i < k ==> !#[trigger] occurs_at(self@, p@, k),
                None => forall|k: int| !#[trigger] occurs_at(self@, p@, k),
            },
    {
        let n = self.vc.len();
        let m = p.vc.len();
        if m > n {
            return None;
        }
        let mut total: usize = 0;
        let mut k: usize = 0;
        while k < n - m
            invariant
                n == self@.len(),
                m <= n,
                k <= n - m,
                total == byte_offset(self@, k as int),
                total <= 4 * k,
                4 * n <= usize::MAX,
            decreases n - m - k,
        {
            let w = char_width(self.vc[k]);
            total = total + w;
            k += 1;
        }
        let mut i: usize = n - m;
        let mut off: usize = total;
        loop
            invariant
                n == self@.len(),
                m == p@.len(),
                m <= n,
                i <= n - m,
                off == byte_offset(self@, i as int),
                off <= 4 * i,
                4 * n <= usize::MAX,
                forall|k: int| i < k ==> !#[trigger] occurs_at(self@, p@, k),
            decreases i,
        {
            let mut j: usize = 0;
            while j < m && self.vc[i + j] == p.vc[j]
                invariant
                    n == self@.len(),
                    m == p@.len(),
                    i + m <= n,
                    j <= m,
                    forall|t: int| 0 <= t < j ==> self@[i + t] == p@[t],
                decreases m - j,
            {
                j += 1;
            }
            if j == m {
                return Some(off);
            }
            proof {
                assert(!occurs_at(self@, p@, i as int)) by {
                    assert(self@[i + j] != p@[j as int]);
                }
            }
            if i == 0 {
                proof {
                    assert forall|k: int| !#[trigger] occurs_at(self@, p@, k) by {
                        if k < 0 {
                        }
                    }
                }
                return None;
            }
            i -= 1;
            let w = char_width(self.vc[i]);
            proof {
                lemma_byte_offset_bounds(self@, i as int);
            }
            off = off - w;
        }
    }

    /// Each character's code minus the code of `base`, both taken as bytes.
    pub fn into_values(self, base: char) -> (r: Vec<usize>)
        requires
            forall|i: int| 0 <= i < self@.len() ==> (#[trigger] self@[i] as u32 as u8) >= (base as u32 as u8),
        ensures
            r@.len() == self@.len(),
            forall|i: int|
                0 <= i < self@.len() ==> #[trigger] r@[i] == (self@[i] as u32 as u8) - (base as u32
                    as u8),
    {
        let mut r: Vec<usize> = Vec::new();
        let b = base as u32 as u8;
        let mut i: usize = 0;
        while i < self.vc.len()
            invariant
                i <= self@.len(),
                b == base as u32 as u8,
                r@.len() == i,
                forall|k: int| 0 <= k < self@.len() ==> (#[trigger] self@[k] as u32 as u8) >= b,
                forall|k: int| 0 <= k < i ==> #[trigger] r@[k] == (self@[k] as u32 as u8) - b,
            decreases self@.len() - i,
        {
            let c = self.vc[i] as u32 as u8;
            r.push((c - b) as usize);
            i += 1;
        }
        r
    }

    /// Sort the characters.
    pub fn sort(&mut self)
        ensures
            sorted(final(self)@),
            final(self)@.to_multiset() == old(self)@.to_multiset(),
            final(self)@.len() == old(self)@.len(),
    {
        sort_vec(&mut self.vc);
    }

    /// Remove and return the character at `index`.
    pub fn remove(&mut self, index: usize) -> (r: char)
        requires
            index < old(self)@.len(),
        ensures
            r == old(self)@[index as int],
            final(self)@ == old(self)@.remove(index as int),
    {
        self.vc.remove(index)
    }

    /// The character at `i`.
    pub fn get(&self, i: usize) -> (r: char)
        requires
            i < self@.len(),
        ensures
            r == self@[i as int],
    {
        self.vc[i]
    }

    /// Replace the character at `i`.
    pub fn set(&mut self, i: usize, c: char)
        requires
            i < old(self)@.len(),
        ensures
            final(self)@ == old(self)@.update(i as int, c),
    {
        self.vc.set(i, c);
    }

    /// The concatenation of `self` and `rhs`.
    pub fn concat(self, rhs: Str) -> (r: Str)
        ensures
            r@ == self@ + rhs@,
    {
        let mut ret = self;
        ret.append(rhs);
        ret
    }

    /// Append the characters of `rhs`.
    pub fn append(&mut self, rhs: Str)
        ensures
            final(self)@ == old(self)@ + rhs@,
    {
        let mut i: usize = 0;
        while i < rhs.vc.len()
            invariant
                i <= rhs@.len(),
                self@ == old(self)@ + rhs@.take(i as int),
            decreases rhs@.len() - i,
        {
            self.vc.push(rhs.vc[i]);
            assert(self@ =~= old(self)@ + rhs@.take(i + 1));
            i += 1;
        }
        assert(rhs@.take(rhs@.len() as int) =~= rhs@);
    }

    /// `self` followed by `c`.
    pub fn with_char(self, c: char) -> (r: Str)
        ensures
            r@ == self@.push(c),
    {
        let mut ret = self;
        ret.vc.push(c);
        ret
    }
}

} // verus!
