//! Binary search on a sorted vector for the neighbours of a key.
use vstd::prelude::*;
use crate::ordering::{sorted, LinearOrder};

verus! {

/// The search predicate: `x <= key` when `inclusive`, otherwise `x < key`.
pub open spec fn earlier<T: LinearOrder>(x: T, key: T, inclusive: bool) -> bool {
    if inclusive {
        T::spec_le(x, key)
    } else {
        !T::spec_le(key, x)
    }
}

fn earlier_exec<T: LinearOrder>(x: &T, key: &T, inclusive: bool) -> (r: bool)
    ensures
        r == earlier(*x, *key, inclusive),
{
    if inclusive {
        x.le(key)
    } else {
        !key.le(x)
    }
}

/// `i` is the last index whose element comes before `key` (`None` if there is none).
pub open spec fn last_earlier<T: LinearOrder>(s: Seq<T>, key: T, inclusive: bool, r: Option<(usize, &T)>) -> bool {
    match r {
        Some((i, x)) => {
            &&& 0 <= i < s.len()
            &&& *x == s[i as int]
            &&& earlier(s[i as int], key, inclusive)
            &&& (i + 1 == s.len() || !earlier(s[i + 1], key, inclusive))
        },
        None => s.len() == 0 || !earlier(s[0], key, inclusive),
    }
}

/// `i` is the first index whose element does not come before `key` (`None` if there is none).
pub open spec fn first_not_earlier<T: LinearOrder>(s: Seq<T>, key: T, inclusive: bool, r: Option<(usize, &T)>) -> bool {
    match r {
        Some((i, x)) => {
            &&& 0 <= i < s.len()
            &&& *x == s[i as int]
            &&& !earlier(s[i as int], key, inclusive)
            &&& (i == 0 || earlier(s[i - 1], key, inclusive))
        },
        None => s.len() == 0 || earlier(s.last(), key, inclusive),
    }
}

/// The last element before `key` and the first element not before it.
pub fn sorted_binary_search<'a, T: LinearOrder>(vec: &'a Vec<T>, key: &T, inclusive: bool) -> (r: (
    Option<(usize, &'a T)>,
    Option<(usize, &'a T)>,
))
    requires
        sorted(vec@),
    ensures
        last_earlier(vec@, *key, inclusive, r.0),
        first_not_earlier(vec@, *key, inclusive, r.1),
{
    if vec.len() == 0 {
        return (None, None);
    }
    let n = vec.len();
    if !earlier_exec(&vec[0], key, inclusive) {
        (None, Some((0, &vec[0])))
    } else if earlier_exec(&vec[n - 1], key, inclusive) {
        (Some((n - 1, &vec[n - 1])), None)
    } else {
        let mut l: usize = 0;
        let mut r: usize = n - 1;
        while r - l > 1
            invariant
                n == vec.len(),
                sorted(vec@),
                l < r < n,
                earlier(vec@[l as int], *key, inclusive),
                !earlier(vec@[r as int], *key, inclusive),
            decreases r - l,
        {
            let m = l + (r - l) / 2;
            if earlier_exec(&vec[m], key, inclusive) {
                l = m;
            } else {
                r = m;
            }
        }
        (Some((l, &vec[l])), Some((r, &vec[r])))
    }
}

/// Neighbour queries on a sorted vector: each returns the index and the element.
pub trait SortVecBinarySearch<T> {
    /// The searched collection is in non-decreasing order.
    spec fn spec_sorted(&self) -> bool;

    /// The first element `>= key`.
    fn greater_equal(&self, key: &T) -> Option<(usize, &T)>
        requires
            self.spec_sorted(),
    ;

    /// The first element `> key`.
    fn greater_than(&self, key: &T) -> Option<(usize, &T)>
        requires
            self.spec_sorted(),
    ;

    /// The last element `<= key`.
    fn less_equal(&self, key: &T) -> Option<(usize, &T)>
        requires
            self.spec_sorted(),
    ;

    /// The last element `< key`.
    fn less_than(&self, key: &T) -> Option<(usize, &T)>
        requires
            self.spec_sorted(),
    ;
}

impl<T: LinearOrder> SortVecBinarySearch<T> for Vec<T> {
    open spec fn spec_sorted(&self) -> bool {
        sorted(self@)
    }

    fn greater_equal(&self, key: &T) -> (r: Option<(usize, &T)>)
        ensures
            first_not_earlier(self@, *key, false, r),
    {
        sorted_binary_search(self, key, false).1
    }

    fn greater_than(&self, key: &T) -> (r: Option<(usize, &T)>)
        ensures
            first_not_earlier(self@, *key, true, r),
    {
        sorted_binary_search(self, key, true).1
    }

    fn less_equal(&self, key: &T) -> (r: Option<(usize, &T)>)
        ensures
            last_earlier(self@, *key, true, r),
    {
        sorted_binary_search(self, key, true).0
    }

    fn less_than(&self, key: &T) -> (r: Option<(usize, &T)>)
        ensures
            last_earlier(self@, *key, false, r),
    {
        sorted_binary_search(self, key, false).0
    }
}

} // verus!
