//! Nearest keys of ordered maps and sets: the least key at or above (or strictly above) a
//! bound, and the greatest key at or below (or strictly below) it.
use vstd::prelude::*;
use std::collections::{BTreeMap, BTreeSet};
use vstd::std_specs::iter::IteratorSpec;

verus! {

/// `x` lies on the wanted side of `b`: above it (`up`) or below it, strictly or not.
pub open spec fn beyond(x: i64, b: i64, up: bool, strict: bool) -> bool {
    if up {
        if strict {
            x > b
        } else {
            x >= b
        }
    } else {
        if strict {
            x < b
        } else {
            x <= b
        }
    }
}

/// `r` is the element of `s` beyond `b` that is nearest to it, or `None` when there is none.
pub open spec fn nearest(s: Set<i64>, b: i64, up: bool, strict: bool, r: Option<i64>) -> bool {
    match r {
        None => forall|x: i64| s.contains(x) ==> !beyond(x, b, up, strict),
        Some(k) => {
            &&& s.contains(k)
            &&& beyond(k, b, up, strict)
            &&& forall|x: i64| s.contains(x) && beyond(x, b, up, strict) ==> if up { k <= x } else { x <= k }
        },
    }
}

/// The key of an entry, if any.
pub open spec fn entry_key<V>(r: Option<(&i64, &V)>) -> Option<i64> {
    match r {
        Some(e) => Some(*e.0),
        None => None,
    }
}

/// The element, if any.
pub open spec fn elem(r: Option<&i64>) -> Option<i64> {
    match r {
        Some(e) => Some(*e),
        None => None,
    }
}

/// The entry of `m` whose key lies beyond `b` nearest to it.
fn map_nearest<'a, V>(m: &'a BTreeMap<i64, V>, b: i64, up: bool, strict: bool) -> (r: Option<(&'a i64, &'a V)>)
    ensures
        nearest(m@.dom(), b, up, strict, entry_key(r)),
        r is Some ==> *r.unwrap().1 == m@[*r.unwrap().0],
{
    broadcast use vstd::std_specs::btree::group_btree_axioms;

    let ghost rem = vstd::std_specs::btree::spec_keys_iter(m).remaining();
    let mut best: Option<&'a i64> = None;
    for kr in it: m.keys()
        invariant
            it.seq() == rem,
            rem.unref().to_set() == m@.dom(),
            match best {
                None => forall|j: int| 0 <= j < it.index() ==> !beyond(rem.unref()[j], b, up, strict),
                Some(k) => {
                    &&& m@.dom().contains(*k)
                    &&& beyond(*k, b, up, strict)
                    &&& forall|j: int|
                        0 <= j < it.index() && beyond(rem.unref()[j], b, up, strict) ==> if up {
                            *k <= rem.unref()[j]
                        } else {
                            rem.unref()[j] <= *k
                        }
                },
            },
    {
        let k = *kr;
        proof {
            assert(rem.unref()[it.index() as int] == k);
            assert(rem.unref().to_set().contains(k));
        }
        let hit = if up {
            if strict {
                k > b
            } else {
                k >= b
            }
        } else {
            if strict {
                k < b
            } else {
                k <= b
            }
        };
        if hit {
            let better = match best {
                None => true,
                Some(c) => if up {
                    k < *c
                } else {
                    k > *c
                },
            };
            if better {
                best = Some(kr);
            }
        }
    }
    proof {
        assert forall|x: i64| m@.dom().contains(x) && beyond(x, b, up, strict) implies match best {
            None => false,
            Some(k) => if up {
                *k <= x
            } else {
                x <= *k
            },
        } by {
            assert(rem.unref().to_set().contains(x));
            let j = choose|j: int| 0 <= j < rem.unref().len() && rem.unref()[j] == x;
        }
    }
    match best {
        None => None,
        Some(k) => {
            let v = m.get(k).unwrap();
            Some((k, v))
        },
    }
}

/// The element of `s` beyond `b` nearest to it.
fn set_nearest<'a>(s: &'a BTreeSet<i64>, b: i64, up: bool, strict: bool) -> (r: Option<&'a i64>)
    ensures
        nearest(s@, b, up, strict, elem(r)),
{
    broadcast use vstd::std_specs::btree::group_btree_axioms;

    let ghost rem = vstd::std_specs::btree::spec_btree_keys_iter(s).remaining();
    let mut best: Option<&'a i64> = None;
    for kr in it: s.iter()
        invariant
            it.seq() == rem,
            rem.unref().to_set() == s@,
            match best {
                None => forall|j: int| 0 <= j < it.index() ==> !beyond(rem.unref()[j], b, up, strict),
                Some(k) => {
                    &&& s@.contains(*k)
                    &&& beyond(*k, b, up, strict)
                    &&& forall|j: int|
                        0 <= j < it.index() && beyond(rem.unref()[j], b, up, strict) ==> if up {
                            *k <= rem.unref()[j]
                        } else {
                            rem.unref()[j] <= *k
                        }
                },
            },
    {
        let k = *kr;
        proof {
            assert(rem.unref()[it.index() as int] == k);
            assert(rem.unref().to_set().contains(k));
        }
        let hit = if up {
            if strict {
                k > b
            } else {
                k >= b
            }
        } else {
            if strict {
                k < b
            } else {
                k <= b
            }
        };
        if hit {
            let better = match best {
                None => true,
                Some(c) => if up {
                    k < *c
                } else {
                    k > *c
                },
            };
            if better {
                best = Some(kr);
            }
        }
    }
    proof {
        assert forall|x: i64| s@.contains(x) && beyond(x, b, up, strict) implies match best {
            None => false,
            Some(k) => if up {
                *k <= x
            } else {
                x <= *k
            },
        } by {
            assert(rem.unref().to_set().contains(x));
            let j = choose|j: int| 0 <= j < rem.unref().len() && rem.unref()[j] == x;
        }
    }
    best
}

/// Nearest entries of an ordered map.
pub trait BTreeMapBinarySearch<K, V> {
    /// The entry with the least key at least `key`.
    fn greater_equal(&self, key: &K) -> Option<(&K, &V)>;

    /// The entry with the least key above `key`.
    fn greater_than(&self, key: &K) -> Option<(&K, &V)>;

    /// The entry with the greatest key at most `key`.
    fn less_equal(&self, key: &K) -> Option<(&K, &V)>;

    /// The entry with the greatest key below `key`.
    fn less_than(&self, key: &K) -> Option<(&K, &V)>;
}

impl<V> BTreeMapBinarySearch<i64, V> for BTreeMap<i64, V> {
    fn greater_equal(&self, key: &i64) -> (r: Option<(&i64, &V)>)
        ensures
            nearest(self@.dom(), *key, true, false, entry_key(r)),
            r is Some ==> *r.unwrap().1 == self@[*r.unwrap().0],
    {
        map_nearest(self, *key, true, false)
    }

    fn greater_than(&self, key: &i64) -> (r: Option<(&i64, &V)>)
        ensures
            nearest(self@.dom(), *key, true, true, entry_key(r)),
            r is Some ==> *r.unwrap().1 == self@[*r.unwrap().0],
    {
        map_nearest(self, *key, true, true)
    }

    fn less_equal(&self, key: &i64) -> (r: Option<(&i64, &V)>)
        ensures
            nearest(self@.dom(), *key, false, false, entry_key(r)),
            r is Some ==> *r.unwrap().1 == self@[*r.unwrap().0],
    {
        map_nearest(self, *key, false, false)
    }

    fn less_than(&self, key: &i64) -> (r: Option<(&i64, &V)>)
        ensures
            nearest(self@.dom(), *key, false, true, entry_key(r)),
            r is Some ==> *r.unwrap().1 == self@[*r.unwrap().0],
    {
        map_nearest(self, *key, false, true)
    }
}

/// Nearest elements of an ordered set.
pub trait BTreeSetBinarySearch<T> {
    /// The least element at least `key`.
    fn greater_equal(&self, key: &T) -> Option<&T>;

    /// The least element above `key`.
    fn greater_than(&self, key: &T) -> Option<&T>;

    /// The greatest element at most `key`.
    fn less_equal(&self, key: &T) -> Option<&T>;

    /// The greatest element below `key`.
    fn less_than(&self, key: &T) -> Option<&T>;
}

impl BTreeSetBinarySearch<i64> for BTreeSet<i64> {
    fn greater_equal(&self, key: &i64) -> (r: Option<&i64>)
        ensures
            nearest(self@, *key, true, false, elem(r)),
    {
        set_nearest(self, *key, true, false)
    }

    fn greater_than(&self, key: &i64) -> (r: Option<&i64>)
        ensures
            nearest(self@, *key, true, true, elem(r)),
    {
        set_nearest(self, *key, true, true)
    }

    fn less_equal(&self, key: &i64) -> (r: Option<&i64>)
        ensures
            nearest(self@, *key, false, false, elem(r)),
    {
        set_nearest(self, *key, false, false)
    }

    fn less_than(&self, key: &i64) -> (r: Option<&i64>)
        ensures
            nearest(self@, *key, false, true, elem(r)),
    {
        set_nearest(self, *key, false, true)
    }
}

} // verus!
