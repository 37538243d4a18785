//! Pairs and 2D points with component-wise arithmetic.
use vstd::prelude::*;

verus! {

/// Two values combined component-wise.
pub struct Pair<TA, TB> {
    a: TA,
    b: TB,
}

impl<TA: Copy, TB: Copy> Pair<TA, TB> {
    /// The first component.
    pub closed spec fn first(&self) -> TA {
        self.a
    }

    /// The second component.
    pub closed spec fn second(&self) -> TB {
        self.b
    }

    /// The pair `(a, b)`.
    pub fn from(a: TA, b: TB) -> (r: Self)
        ensures
            r.first() == a,
            r.second() == b,
    {
        Pair { a, b }
    }
}

impl Pair<i64, i64> {
    /// Component-wise sum.
    pub fn add(self, rhs: Self) -> (r: Self)
        requires
            i64::MIN <= self.first() + rhs.first() <= i64::MAX,
            i64::MIN <= self.second() + rhs.second() <= i64::MAX,
        ensures
            r.first() == self.first() + rhs.first(),
            r.second() == self.second() + rhs.second(),
    {
        Pair { a: self.a + rhs.a, b: self.b + rhs.b }
    }

    /// Component-wise difference.
    pub fn sub(self, rhs: Self) -> (r: Self)
        requires
            i64::MIN <= self.first() - rhs.first() <= i64::MAX,
            i64::MIN <= self.second() - rhs.second() <= i64::MAX,
        ensures
            r.first() == self.first() - rhs.first(),
            r.second() == self.second() - rhs.second(),
    {
        Pair { a: self.a - rhs.a, b: self.b - rhs.b }
    }

    /// Component-wise negation.
    pub fn neg(self) -> (r: Self)
        requires
            self.first() != i64::MIN,
            self.second() != i64::MIN,
        ensures
            r.first() == -self.first(),
            r.second() == -self.second(),
    {
        Pair { a: -self.a, b: -self.b }
    }

    /// Both components times `k`.
    pub fn mul(self, k: i64) -> (r: Self)
        requires
            i64::MIN <= self.first() * k <= i64::MAX,
            i64::MIN <= self.second() * k <= i64::MAX,
        ensures
            r.first() == self.first() * k,
            r.second() == self.second() * k,
    {
        Pair { a: self.a * k, b: self.b * k }
    }
}

/// A point with `y` and `x` coordinates.
#[derive(Clone, Copy)]
pub struct Point<T> {
    pub y: T,
    pub x: T,
}

impl<T: Copy> Point<T> {
    /// The point `(y, x)`.
    pub fn new(y: T, x: T) -> (r: Self)
        ensures
            r.y == y,
            r.x == x,
    {
        Point { y, x }
    }
}

impl Point<i64> {
    /// Component-wise sum.
    pub fn add(self, rhs: Self) -> (r: Self)
        requires
            i64::MIN <= self.y + rhs.y <= i64::MAX,
            i64::MIN <= self.x + rhs.x <= i64::MAX,
        ensures
            r.y == self.y + rhs.y,
            r.x == self.x + rhs.x,
    {
        Point { y: self.y + rhs.y, x: self.x + rhs.x }
    }

    /// Component-wise difference.
    pub fn sub(self, rhs: Self) -> (r: Self)
        requires
            i64::MIN <= self.y - rhs.y <= i64::MAX,
            i64::MIN <= self.x - rhs.x <= i64::MAX,
        ensures
            r.y == self.y - rhs.y,
            r.x == self.x - rhs.x,
    {
        Point { y: self.y - rhs.y, x: self.x - rhs.x }
    }

    /// Both coordinates times `k`.
    pub fn mul(self, k: i64) -> (r: Self)
        requires
            i64::MIN <= self.y * k <= i64::MAX,
            i64::MIN <= self.x * k <= i64::MAX,
        ensures
            r.y == self.y * k,
            r.x == self.x * k,
    {
        Point { y: self.y * k, x: self.x * k }
    }
}

} // verus!
