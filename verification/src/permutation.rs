//! Iteration over the permutations of a sequence in lexicographic order.
use vstd::prelude::*;
use permutohedron::LexicalPermutation;
use crate::ordering::{sort_vec, sorted};

verus! {

/// `a` comes strictly before `b` in lexicographic order (equal lengths).
pub open spec fn lex_less(a: Seq<i64>, b: Seq<i64>) -> bool {
    exists|k: int|
        0 <= k < a.len() && k < b.len() && a[k] < b[k] && #[trigger] a.take(k) == b.take(k)
}

/// `s` has an ascent: some element is smaller than the next one.
pub open spec fn has_ascent(s: Seq<i64>) -> bool {
    exists|i: int| 1 <= i < s.len() && #[trigger] s[i - 1] < s[i]
}

/// `LexicalPermutation::next_permutation` on a slice of `i64` (permutohedron 0.2):
/// when `v` has an ascent it becomes the next permutation in lexicographic order (a
/// rearrangement of the same elements, greater than the old one, with no rearrangement in
/// between) and `true` is returned; otherwise `v` is left unchanged and `false` is returned.
#[verifier::external_body]
fn lexical_next_permutation(v: &mut Vec<i64>) -> (r: bool)
    ensures
        r == has_ascent(old(v)@),
        !r ==> final(v)@ == old(v)@,
        r ==> final(v)@.to_multiset() == old(v)@.to_multiset(),
        r ==> final(v)@.len() == old(v)@.len(),
        r ==> lex_less(old(v)@, final(v)@),
        r ==> forall|p: Seq<i64>|
            p.to_multiset() == old(v)@.to_multiset() && lex_less(old(v)@, p) ==> !lex_less(
                p,
                final(v)@,
            ),
{
    v.as_mut_slice().next_permutation()
}

/// Yields the sorted arrangement first, then each following permutation.
pub struct PermutationIterator<T> {
    v: Vec<T>,
    is_first: bool,
}

impl PermutationIterator<i64> {
    /// The arrangement the next call of `next` starts from.
    pub closed spec fn current(&self) -> Seq<i64> {
        self.v@
    }

    /// Whether the next call yields `current` itself.
    pub closed spec fn at_start(&self) -> bool {
        self.is_first
    }

    /// An iterator over the permutations of `v`, starting from its sorted arrangement.
    pub fn new(v: Vec<i64>) -> (r: Self)
        ensures
            sorted(r.current()),
            r.current().to_multiset() == v@.to_multiset(),
            r.current().len() == v@.len(),
            r.at_start(),
    {
        let mut v = v;
        sort_vec(&mut v);
        PermutationIterator { v, is_first: true }
    }

    /// The next permutation, or `None` after the last one.
    pub fn next(&mut self) -> (r: Option<Vec<i64>>)
        ensures
            old(self).at_start() ==> (r matches Some(w) && w@ == final(self).current()) && final(self).current()
                == old(self).current() && !final(self).at_start(),
            !old(self).at_start() ==> !final(self).at_start() && if has_ascent(old(self).current()) {
                &&& r matches Some(w) && w@ == final(self).current()
                &&& final(self).current().to_multiset() == old(self).current().to_multiset()
                &&& lex_less(old(self).current(), final(self).current())
                &&& forall|p: Seq<i64>|
                    p.to_multiset() == old(self).current().to_multiset() && lex_less(
                        old(self).current(),
                        p,
                    ) ==> !lex_less(p, final(self).current())
            } else {
                r is None && final(self).current() == old(self).current()
            },
    {
        if self.is_first {
            self.is_first = false;
            let c = self.v.clone();
            assert(c@ =~= self.v@);
            Some(c)
        } else if lexical_next_permutation(&mut self.v) {
            let c = self.v.clone();
            assert(c@ =~= self.v@);
            Some(c)
        } else {
            None
        }
    }
}

/// Turn a collection into an iterator over its permutations.
pub trait IntoPermutations<T> {
    fn into_permutations(self) -> PermutationIterator<T>;
}

impl IntoPermutations<i64> for Vec<i64> {
    fn into_permutations(self) -> (r: PermutationIterator<i64>)
        ensures
            sorted(r.current()),
            r.current().to_multiset() == self@.to_multiset(),
            r.at_start(),
    {
        PermutationIterator::new(self)
    }
}

} // verus!
