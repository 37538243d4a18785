//! Small helpers: bounded index moves, transposition, prepending.
use vstd::prelude::*;

verus! {

/// Move an index by a signed delta, staying inside `[lim_lo, lim_hi]`.
pub trait MoveDelta<T>: Sized {
    /// The move stays within the range of the arithmetic.
    spec fn spec_move_ok(self, delta: T) -> bool;

    fn move_delta(self, delta: T, lim_lo: usize, lim_hi: usize) -> Option<usize>
        requires
            self.spec_move_ok(delta),
    ;
}

impl MoveDelta<i64> for usize {
    open spec fn spec_move_ok(self, delta: i64) -> bool {
        i64::MIN <= (self as i64) + delta <= i64::MAX
    }

    fn move_delta(self, delta: i64, lim_lo: usize, lim_hi: usize) -> (r: Option<usize>)
        ensures
            ({
                let added = (self as i64) + delta;
                r == if (lim_lo as i64) <= added && added <= (lim_hi as i64) {
                    Some(added as usize)
                } else {
                    None::<usize>
                }
            }),
    {
        let added: i64 = self as i64 + delta;
        let lo: i64 = lim_lo as i64;
        let hi: i64 = lim_hi as i64;
        if lo <= added && added <= hi {
            Some(added as usize)
        } else {
            None
        }
    }
}

/// Transposition of a rectangular matrix given as rows.
pub trait Transpose<T>: Sized {
    /// There is a first row and no row is shorter than it.
    spec fn spec_rectangular(&self) -> bool;

    fn transpose(self) -> Vec<Vec<T>>
        requires
            self.spec_rectangular(),
    ;
}

impl<T: Copy> Transpose<T> for Vec<Vec<T>> {
    open spec fn spec_rectangular(&self) -> bool {
        &&& self@.len() >= 1
        &&& forall|y: int| 0 <= y < self@.len() ==> (#[trigger] self@[y])@.len() >= self@[0]@.len()
    }

    fn transpose(self) -> (r: Vec<Vec<T>>)
        ensures
            r@.len() == self@[0]@.len(),
            forall|x: int| 0 <= x < r@.len() ==> (#[trigger] r@[x])@.len() == self@.len(),
            forall|x: int, y: int|
                0 <= x < r@.len() && 0 <= y < self@.len() ==> #[trigger] r@[x]@[y] == self@[y]@[x],
    {
        let h = self.len();
        let w = self[0].len();
        let mut r: Vec<Vec<T>> = Vec::new();
        let mut x: usize = 0;
        while x < w
            invariant
                h == self@.len(),
                h >= 1,
                w == self@[0]@.len(),
                forall|y: int| 0 <= y < h ==> (#[trigger] self@[y])@.len() >= w,
                x <= w,
                r@.len() == x,
                forall|i: int| 0 <= i < x ==> (#[trigger] r@[i])@.len() == h,
                forall|i: int, y: int| 0 <= i < x && 0 <= y < h ==> #[trigger] r@[i]@[y] == self@[y]@[i],
            decreases w - x,
        {
            let mut col: Vec<T> = Vec::new();
            let mut y: usize = 0;
            while y < h
                invariant
                    h == self@.len(),
                    x < w,
                    forall|k: int| 0 <= k < h ==> (#[trigger] self@[k])@.len() >= w,
                    y <= h,
                    col@.len() == y,
                    forall|k: int| 0 <= k < y ==> #[trigger] col@[k] == self@[k]@[x as int],
                decreases h - y,
            {
                col.push(self[y][x]);
                y += 1;
            }
            r.push(col);
            x += 1;
        }
        r
    }
}

/// Insert a value at the front of a vector.
pub trait AddHeader<T> {
    fn add_header(&mut self, add_val: T);
}

impl<T: Copy> AddHeader<T> for Vec<T> {
    fn add_header(&mut self, add_val: T)
        ensures
            final(self)@ == seq![add_val] + old(self)@,
    {
        let mut res: Vec<T> = Vec::new();
        res.push(add_val);
        let mut i: usize = 0;
        while i < self.len()
            invariant
                i <= self@.len(),
                self@ == old(self)@,
                res@ == seq![add_val] + old(self)@.take(i as int),
            decreases self@.len() - i,
        {
            res.push(self[i]);
            assert(res@ =~= seq![add_val] + old(self)@.take(i + 1));
            i += 1;
        }
        assert(old(self)@.take(self@.len() as int) =~= old(self)@);
        *self = res;
    }
}

} // verus!
