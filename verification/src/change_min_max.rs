//! In-place minimum / maximum updates.
use vstd::prelude::*;

verus! {

/// Lexicographic strict order on pairs, as `derive(Ord)` orders tuples.
pub open spec fn lex_less(a: (usize, usize), b: (usize, usize)) -> bool {
    a.0 < b.0 || (a.0 == b.0 && a.1 < b.1)
}

/// Replace a value by a smaller (or larger) one, reporting whether it changed.
pub trait ChangeMinMax<T> {
    fn chmin(&mut self, rhs: T) -> bool;

    fn chmax(&mut self, rhs: T) -> bool;
}

impl ChangeMinMax<i64> for i64 {
    fn chmin(&mut self, rhs: i64) -> (changed: bool)
        ensures
            changed == (*old(self) > rhs),
            *final(self) == if *old(self) > rhs { rhs } else { *old(self) },
    {
        if *self > rhs {
            *self = rhs;
            true
        } else {
            false
        }
    }

    fn chmax(&mut self, rhs: i64) -> (changed: bool)
        ensures
            changed == (*old(self) < rhs),
            *final(self) == if *old(self) < rhs { rhs } else { *old(self) },
    {
        if *self < rhs {
            *self = rhs;
            true
        } else {
            false
        }
    }
}

impl ChangeMinMax<i64> for Option<i64> {
    fn chmin(&mut self, rhs: i64) -> (changed: bool)
        ensures
            changed == (old(self).is_none() || old(self).unwrap() > rhs),
            *final(self) == if changed { Some(rhs) } else { *old(self) },
    {
        if let Some(val) = *self {
            if val > rhs {
                *self = Some(rhs);
                true
            } else {
                false
            }
        } else {
            *self = Some(rhs);
            true
        }
    }

    fn chmax(&mut self, rhs: i64) -> (changed: bool)
        ensures
            changed == (old(self).is_none() || old(self).unwrap() < rhs),
            *final(self) == if changed { Some(rhs) } else { *old(self) },
    {
        if let Some(val) = *self {
            if val < rhs {
                *self = Some(rhs);
                true
            } else {
                false
            }
        } else {
            *self = Some(rhs);
            true
        }
    }
}

impl ChangeMinMax<usize> for usize {
    fn chmin(&mut self, rhs: usize) -> (changed: bool)
        ensures
            changed == (*old(self) > rhs),
            *final(self) == if *old(self) > rhs { rhs } else { *old(self) },
    {
        if *self > rhs {
            *self = rhs;
            true
        } else {
            false
        }
    }

    fn chmax(&mut self, rhs: usize) -> (changed: bool)
        ensures
            changed == (*old(self) < rhs),
            *final(self) == if *old(self) < rhs { rhs } else { *old(self) },
    {
        if *self < rhs {
            *self = rhs;
            true
        } else {
            false
        }
    }
}

impl ChangeMinMax<usize> for Option<usize> {
    fn chmin(&mut self, rhs: usize) -> (changed: bool)
        ensures
            changed == (old(self).is_none() || old(self).unwrap() > rhs),
            *final(self) == if changed { Some(rhs) } else { *old(self) },
    {
        if let Some(val) = *self {
            if val > rhs {
                *self = Some(rhs);
                true
            } else {
                false
            }
        } else {
            *self = Some(rhs);
            true
        }
    }

    fn chmax(&mut self, rhs: usize) -> (changed: bool)
        ensures
            changed == (old(self).is_none() || old(self).unwrap() < rhs),
            *final(self) == if changed { Some(rhs) } else { *old(self) },
    {
        if let Some(val) = *self {
            if val < rhs {
                *self = Some(rhs);
                true
            } else {
                false
            }
        } else {
            *self = Some(rhs);
            true
        }
    }
}

impl ChangeMinMax<u64> for u64 {
    fn chmin(&mut self, rhs: u64) -> (changed: bool)
        ensures
            changed == (*old(self) > rhs),
            *final(self) == if *old(self) > rhs { rhs } else { *old(self) },
    {
        if *self > rhs {
            *self = rhs;
            true
        } else {
            false
        }
    }

    fn chmax(&mut self, rhs: u64) -> (changed: bool)
        ensures
            changed == (*old(self) < rhs),
            *final(self) == if *old(self) < rhs { rhs } else { *old(self) },
    {
        if *self < rhs {
            *self = rhs;
            true
        } else {
            false
        }
    }
}

impl ChangeMinMax<u64> for Option<u64> {
    fn chmin(&mut self, rhs: u64) -> (changed: bool)
        ensures
            changed == (old(self).is_none() || old(self).unwrap() > rhs),
            *final(self) == if changed { Some(rhs) } else { *old(self) },
    {
        if let Some(val) = *self {
            if val > rhs {
                *self = Some(rhs);
                true
            } else {
                false
            }
        } else {
            *self = Some(rhs);
            true
        }
    }

    fn chmax(&mut self, rhs: u64) -> (changed: bool)
        ensures
            changed == (old(self).is_none() || old(self).unwrap() < rhs),
            *final(self) == if changed { Some(rhs) } else { *old(self) },
    {
        if let Some(val) = *self {
            if val < rhs {
                *self = Some(rhs);
                true
            } else {
                false
            }
        } else {
            *self = Some(rhs);
            true
        }
    }
}

impl ChangeMinMax<(usize, usize)> for (usize, usize) {
    fn chmin(&mut self, rhs: (usize, usize)) -> (changed: bool)
        ensures
            changed == lex_less(rhs, *old(self)),
            *final(self) == if changed { rhs } else { *old(self) },
    {
        if rhs.0 < self.0 || (rhs.0 == self.0 && rhs.1 < self.1) {
            *self = rhs;
            true
        } else {
            false
        }
    }

    fn chmax(&mut self, rhs: (usize, usize)) -> (changed: bool)
        ensures
            changed == lex_less(*old(self), rhs),
            *final(self) == if changed { rhs } else { *old(self) },
    {
        if self.0 < rhs.0 || (self.0 == rhs.0 && self.1 < rhs.1) {
            *self = rhs;
            true
        } else {
            false
        }
    }
}

} // verus!
