//! Counting occurrences of keys in a map: a key is present exactly while its count is positive.
use vstd::prelude::*;
use std::collections::{BTreeMap, HashMap};

verus! {

/// The count of `key` in `m` (zero when absent).
pub open spec fn count_in<K>(m: Map<K, usize>, key: K) -> nat {
    if m.contains_key(key) {
        m[key] as nat
    } else {
        0
    }
}

/// The map after adding `delta` to the count of `key`.
pub open spec fn after_incr<K>(m: Map<K, usize>, key: K, delta: usize) -> Map<K, usize> {
    m.insert(key, (count_in(m, key) + delta) as usize)
}

/// The map after taking `delta` from the count of `key`, dropping the key at zero.
pub open spec fn after_decr<K>(m: Map<K, usize>, key: K, delta: usize) -> Map<K, usize> {
    if count_in(m, key) == delta {
        m.remove(key)
    } else {
        m.insert(key, (count_in(m, key) - delta) as usize)
    }
}

/// A map that counts its keys.
pub trait MapCounter<T> {
    /// The counts, as a map.
    spec fn spec_counts(&self) -> Map<T, usize>;

    /// Add one to the count of `key`.
    fn incr(&mut self, key: T)
        requires
            count_in(old(self).spec_counts(), key) + 1 <= usize::MAX,
    ;

    /// Add `delta` to the count of `key`.
    fn incr_by(&mut self, key: T, delta: usize)
        requires
            count_in(old(self).spec_counts(), key) + delta <= usize::MAX,
    ;

    /// Take one from the count of `key`.
    fn decr(&mut self, key: &T)
        requires
            count_in(old(self).spec_counts(), *key) >= 1,
    ;

    /// Take `delta` from the count of `key`, removing the key when its count reaches zero.
    fn decr_by(&mut self, key: &T, delta: usize)
        requires
            count_in(old(self).spec_counts(), *key) >= delta,
    ;
}

impl MapCounter<u64> for BTreeMap<u64, usize> {
    open spec fn spec_counts(&self) -> Map<u64, usize> {
        self@
    }

    fn incr(&mut self, key: u64)
        ensures
            final(self)@ == after_incr(old(self)@, key, 1),
    {
        self.incr_by(key, 1);
    }

    fn incr_by(&mut self, key: u64, delta: usize)
        ensures
            final(self)@ == after_incr(old(self)@, key, delta),
    {
        broadcast use vstd::std_specs::btree::group_btree_axioms, vstd::laws_cmp::group_laws_cmp;

        let cur: usize = match self.get(&key) {
            Some(v) => *v,
            None => 0,
        };
        self.insert(key, cur + delta);
    }

    fn decr(&mut self, key: &u64)
        ensures
            final(self)@ == after_decr(old(self)@, *key, 1),
    {
        self.decr_by(key, 1);
    }

    fn decr_by(&mut self, key: &u64, delta: usize)
        ensures
            final(self)@ == after_decr(old(self)@, *key, delta),
    {
        broadcast use vstd::std_specs::btree::group_btree_axioms, vstd::laws_cmp::group_laws_cmp;

        let cur: usize = match self.get(key) {
            Some(v) => *v,
            None => 0,
        };
        let v = cur - delta;
        if v == 0 {
            self.remove(key);
        } else {
            self.insert(*key, v);
        }
    }
}

impl MapCounter<u64> for HashMap<u64, usize> {
    open spec fn spec_counts(&self) -> Map<u64, usize> {
        self@
    }

    fn incr(&mut self, key: u64)
        ensures
            final(self)@ == after_incr(old(self)@, key, 1),
    {
        self.incr_by(key, 1);
    }

    fn incr_by(&mut self, key: u64, delta: usize)
        ensures
            final(self)@ == after_incr(old(self)@, key, delta),
    {
        broadcast use vstd::std_specs::hash::group_hash_axioms;

        let cur: usize = match self.get(&key) {
            Some(v) => *v,
            None => 0,
        };
        self.insert(key, cur + delta);
    }

    fn decr(&mut self, key: &u64)
        ensures
            final(self)@ == after_decr(old(self)@, *key, 1),
    {
        self.decr_by(key, 1);
    }

    fn decr_by(&mut self, key: &u64, delta: usize)
        ensures
            final(self)@ == after_decr(old(self)@, *key, delta),
    {
        broadcast use vstd::std_specs::hash::group_hash_axioms;

        let cur: usize = match self.get(key) {
            Some(v) => *v,
            None => 0,
        };
        let v = cur - delta;
        if v == 0 {
            self.remove(key);
        } else {
            self.insert(*key, v);
        }
    }
}

} // verus!
