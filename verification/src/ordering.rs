//! A linear order usable from verified code, and a verified in-place sort.
use vstd::prelude::*;

verus! {

/// A total order on a `Copy` type, with an executable comparison.
pub trait LinearOrder: Copy {
    spec fn spec_le(a: Self, b: Self) -> bool;

    proof fn lemma_total(a: Self, b: Self)
        ensures
            Self::spec_le(a, b) || Self::spec_le(b, a),
    ;

    proof fn lemma_transitive(a: Self, b: Self, c: Self)
        requires
            Self::spec_le(a, b),
            Self::spec_le(b, c),
        ensures
            Self::spec_le(a, c),
    ;

    proof fn lemma_antisymmetric(a: Self, b: Self)
        requires
            Self::spec_le(a, b),
            Self::spec_le(b, a),
        ensures
            a == b,
    ;

    fn le(&self, other: &Self) -> (r: bool)
        ensures
            r == Self::spec_le(*self, *other),
    ;
}

impl LinearOrder for char {
    open spec fn spec_le(a: char, b: char) -> bool {
        a <= b
    }

    proof fn lemma_total(a: char, b: char) {
    }

    proof fn lemma_transitive(a: char, b: char, c: char) {
    }

    proof fn lemma_antisymmetric(a: char, b: char) {
    }

    fn le(&self, other: &char) -> (r: bool) {
        *self <= *other
    }
}

impl LinearOrder for u64 {
    open spec fn spec_le(a: u64, b: u64) -> bool {
        a <= b
    }

    proof fn lemma_total(a: u64, b: u64) {
    }

    proof fn lemma_transitive(a: u64, b: u64, c: u64) {
    }

    proof fn lemma_antisymmetric(a: u64, b: u64) {
    }

    fn le(&self, other: &u64) -> (r: bool) {
        *self <= *other
    }
}

impl LinearOrder for usize {
    open spec fn spec_le(a: usize, b: usize) -> bool {
        a <= b
    }

    proof fn lemma_total(a: usize, b: usize) {
    }

    proof fn lemma_transitive(a: usize, b: usize, c: usize) {
    }

    proof fn lemma_antisymmetric(a: usize, b: usize) {
    }

    fn le(&self, other: &usize) -> (r: bool) {
        *self <= *other
    }
}

impl LinearOrder for i64 {
    open spec fn spec_le(a: i64, b: i64) -> bool {
        a <= b
    }

    proof fn lemma_total(a: i64, b: i64) {
    }

    proof fn lemma_transitive(a: i64, b: i64, c: i64) {
    }

    proof fn lemma_antisymmetric(a: i64, b: i64) {
    }

    fn le(&self, other: &i64) -> (r: bool) {
        *self <= *other
    }
}

/// `s` is in non-decreasing order.
pub open spec fn sorted<T: LinearOrder>(s: Seq<T>) -> bool {
    forall|a: int, b: int| 0 <= a < b < s.len() ==> T::spec_le(#[trigger] s[a], #[trigger] s[b])
}

/// Exchanging two entries keeps the multiset of entries.
pub proof fn lemma_swap_multiset<T>(s: Seq<T>, i: int, j: int)
    requires
        0 <= i < s.len(),
        0 <= j < s.len(),
    ensures
        s.update(i, s[j]).update(j, s[i]).to_multiset() == s.to_multiset(),
{
    broadcast use vstd::seq_lib::group_to_multiset_ensures;
    broadcast use vstd::multiset::group_multiset_properties;
    broadcast use vstd::seq_lib::to_multiset_update;

    let t = s.update(i, s[j]);
    assert(t.to_multiset() == s.to_multiset().insert(s[j]).remove(s[i]));
    assert(t.update(j, s[i]).to_multiset() == t.to_multiset().insert(s[i]).remove(t[j]));
    if i == j {
        assert(s.update(i, s[j]).update(j, s[i]) =~= s);
    } else {
        assert(t[j] == s[j]);
        assert(s.to_multiset().insert(s[j]).remove(s[i]).insert(s[i]).remove(s[j]) =~= s.to_multiset());
    }
}

/// Sort `v` in place (insertion sort by adjacent exchanges).
pub fn sort_vec<T: LinearOrder>(v: &mut Vec<T>)
    ensures
        sorted(final(v)@),
        final(v)@.to_multiset() == old(v)@.to_multiset(),
        final(v)@.len() == old(v)@.len(),
{
    let n = v.len();
    let mut i: usize = 1;
    while i < n
        invariant
            n == v.len(),
            1 <= i <= n || n == 0,
            sorted(v@.subrange(0, if i < n { i as int } else { n as int })),
            v@.to_multiset() == old(v)@.to_multiset(),
        decreases n - i,
    {
        let mut j = i;
        proof {
            assert forall|a: int, b: int| 0 <= a < b <= i && a != j && b != j implies T::spec_le(
                #[trigger] v@[a],
                #[trigger] v@[b],
            ) by {
                assert(v@.subrange(0, i as int)[a] == v@[a]);
                assert(v@.subrange(0, i as int)[b] == v@[b]);
            }
        }
        while j > 0 && !v[j - 1].le(&v[j])
            invariant
                n == v.len(),
                1 <= i < n,
                j <= i,
                v@.to_multiset() == old(v)@.to_multiset(),
                forall|a: int, b: int|
                    0 <= a < b <= i && a != j && b != j ==> T::spec_le(
                        #[trigger] v@[a],
                        #[trigger] v@[b],
                    ),
                forall|b: int| j < b <= i ==> T::spec_le(v@[j as int], #[trigger] v@[b]),
            decreases j,
        {
            let x = v[j - 1];
            let y = v[j];
            proof {
                T::lemma_total(x, y);
                lemma_swap_multiset(v@, j - 1, j as int);
            }
            let ghost before = v@;
            v.set(j - 1, y);
            v.set(j, x);
            proof {
                assert(v@ == before.update(j - 1, before[j as int]).update(j as int, before[j - 1]));
                assert forall|b: int| j - 1 < b <= i implies T::spec_le(v@[j - 1], #[trigger] v@[b]) by {
                    if b > j {
                        assert(T::spec_le(before[j as int], before[b]));
                    }
                }
            }
            j -= 1;
        }
        proof {
            assert forall|a: int, b: int| 0 <= a < b <= i implies T::spec_le(#[trigger] v@[a], #[trigger] v@[b]) by {
                if b == j && a < j {
                    if a < j - 1 {
                        T::lemma_transitive(v@[a], v@[j - 1], v@[j as int]);
                    }
                } else if a == j {
                }
            }
        }
        i += 1;
    }
    proof {
        if n > 0 {
            assert(v@.subrange(0, n as int) =~= v@);
        }
    }
}

/// Insert `x` into the sorted vector `v`, after the elements not greater than it.
pub fn insert_sorted<T: LinearOrder>(v: &mut Vec<T>, x: T)
    requires
        sorted(old(v)@),
    ensures
        sorted(final(v)@),
        final(v)@.to_multiset() == old(v)@.to_multiset().insert(x),
        final(v)@.len() == old(v)@.len() + 1,
{
    broadcast use vstd::seq_lib::group_to_multiset_ensures;
    broadcast use vstd::seq_lib::to_multiset_insert;

    let n = v.len();
    let mut lo: usize = 0;
    let mut hi: usize = n;
    while lo < hi
        invariant
            n == v.len(),
            v@ == old(v)@,
            sorted(v@),
            lo <= hi <= n,
            forall|i: int| 0 <= i < lo ==> T::spec_le(#[trigger] v@[i], x),
            forall|i: int| hi <= i < n ==> !T::spec_le(#[trigger] v@[i], x),
        decreases hi - lo,
    {
        let m = lo + (hi - lo) / 2;
        if v[m].le(&x) {
            proof {
                assert forall|i: int| 0 <= i <= m implies T::spec_le(#[trigger] v@[i], x) by {
                    if i < m {
                        assert(T::spec_le(v@[i], v@[m as int]));
                        T::lemma_transitive(v@[i], v@[m as int], x);
                    }
                }
            }
            lo = m + 1;
        } else {
            proof {
                assert forall|i: int| m <= i < n implies !T::spec_le(#[trigger] v@[i], x) by {
                    if i > m && T::spec_le(v@[i], x) {
                        assert(T::spec_le(v@[m as int], v@[i]));
                        T::lemma_transitive(v@[m as int], v@[i], x);
                    }
                }
            }
            hi = m;
        }
    }
    v.insert(lo, x);
    proof {
        let s = old(v)@;
        assert(v@ == s.insert(lo as int, x));
        assert forall|a: int, b: int| 0 <= a < b < v@.len() implies T::spec_le(#[trigger] v@[a], #[trigger] v@[b]) by {
            if a < lo && b == lo {
            } else if a == lo && b > lo {
                T::lemma_total(x, s[b - 1]);
            } else if a < lo && b > lo {
                assert(T::spec_le(s[a], s[b - 1]));
            } else if a > lo {
                assert(T::spec_le(s[a - 1], s[b - 1]));
            }
        }
    }
}

/// The last element of a non-empty sorted sequence is its largest.
pub proof fn lemma_sorted_last_max<T: LinearOrder>(s: Seq<T>, y: T)
    requires
        sorted(s),
        s.contains(y),
    ensures
        T::spec_le(y, s.last()),
{
    let i = choose|i: int| 0 <= i < s.len() && s[i] == y;
    if i < s.len() - 1 {
        assert(T::spec_le(s[i], s[s.len() - 1]));
    } else {
        T::lemma_total(y, y);
    }
}

/// Reverse the order of the entries of `v` in place.
pub fn reverse_vec<T: Copy>(v: &mut Vec<T>)
    ensures
        final(v)@ == old(v)@.reverse(),
{
    let n = v.len();
    let mut i: usize = 0;
    while i < n / 2
        invariant
            n == v@.len(),
            n == old(v)@.len(),
            i <= n / 2,
            forall|k: int|
                0 <= k < n ==> #[trigger] v@[k] == if k < i || k >= n - i {
                    old(v)@[n - 1 - k]
                } else {
                    old(v)@[k]
                },
        decreases n / 2 - i,
    {
        let x = v[i];
        let y = v[n - 1 - i];
        v.set(i, y);
        v.set(n - 1 - i, x);
        i += 1;
    }
    assert(v@ =~= old(v)@.reverse());
}

} // verus!
