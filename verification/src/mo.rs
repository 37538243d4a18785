//! Mo's ordering of offline range queries: queries sorted by block of the left end, the
//! right ends alternating up and down from block to block.
use vstd::prelude::*;

verus! {

/// `a` comes before `b` in the lexicographic order of triples.
pub open spec fn triple_le(a: (usize, usize, usize), b: (usize, usize, usize)) -> bool {
    a.0 < b.0 || (a.0 == b.0 && (a.1 < b.1 || (a.1 == b.1 && a.2 <= b.2)))
}

/// Sorted in the lexicographic order of triples.
pub open spec fn triples_sorted(s: Seq<(usize, usize, usize)>) -> bool {
    forall|i: int, j: int| 0 <= i < j < s.len() ==> triple_le(#[trigger] s[i], #[trigger] s[j])
}

/// Sort triples in their lexicographic order with `slice::sort`, which sorts in the order of
/// `Ord` (lexicographic for tuples) and only permutes the entries.
#[verifier::external_body]
fn sort_triples(v: &mut Vec<(usize, usize, usize)>)
    ensures
        triples_sorted(final(v)@),
        final(v)@.len() == old(v)@.len(),
        final(v)@.to_multiset() == old(v)@.to_multiset(),
{
    v.sort();
}

/// The largest `s` with `s * s <= q`.
pub open spec fn is_isqrt(q: int, s: int) -> bool {
    0 <= s && s * s <= q && q < (s + 1) * (s + 1)
}

/// The integer square root, by binary search.
pub fn isqrt(q: u64) -> (s: u64)
    ensures
        is_isqrt(q as int, s as int),
{
    let mut lo: u64 = 0;
    let mut hi: u64 = 0x1_0000_0000;
    assert(q < hi * hi);
    while hi - lo > 1
        invariant
            lo < hi,
            hi <= 0x1_0000_0000,
            lo * lo <= q,
            q < hi * hi,
        decreases hi - lo,
    {
        let mid = lo + (hi - lo) / 2;
        assert(mid * mid <= 0xffff_ffff * 0xffff_ffff) by (nonlinear_arith)
            requires
                mid <= 0xffff_ffff,
        ;
        if mid <= q / mid {
            assert(mid * mid <= q) by (nonlinear_arith)
                requires
                    mid <= q / mid,
                    mid > 0,
            ;
            lo = mid;
        } else {
            assert(q < mid * mid) by (nonlinear_arith)
                requires
                    mid > q / mid,
                    mid > 0,
            ;
            hi = mid;
        }
    }
    lo
}

/// A list of range queries `[l, r]`.
pub struct Mo {
    ls: Vec<usize>,
    rs: Vec<usize>,
}

/// The queries in Mo's order.
pub struct MoIterator {
    indexes: Vec<usize>,
    pos: usize,
    ls: Vec<usize>,
    rs: Vec<usize>,
}

/// The sort key of query `i`: the block of its left end, then its right end, ascending in
/// even blocks and descending in odd ones.
pub open spec fn mo_key(ls: Seq<usize>, rs: Seq<usize>, n: int, d: int, i: int) -> (int, int) {
    let div = (ls[i] as int) / d;
    if div % 2 == 0 {
        (div, rs[i] as int)
    } else {
        (div, n - rs[i])
    }
}

/// `order` lists query numbers by increasing key, ties by increasing number.
pub open spec fn mo_ordered(ls: Seq<usize>, rs: Seq<usize>, n: int, d: int, order: Seq<usize>) -> bool {
    forall|a: int, b: int|
        #![trigger order[a], order[b]]
        0 <= a < b < order.len() ==> {
            let ia = order[a] as int;
            let ib = order[b] as int;
            let ka = mo_key(ls, rs, n, d, ia);
            let kb = mo_key(ls, rs, n, d, ib);
            ka.0 < kb.0 || (ka.0 == kb.0 && (ka.1 < kb.1 || (ka.1 == kb.1 && ia <= ib)))
        }
}

/// The greatest right end.
pub open spec fn max_of(s: Seq<usize>) -> int
    decreases s.len(),
{
    if s.len() == 0 {
        0
    } else if s.len() == 1 {
        s[0] as int
    } else {
        let m = max_of(s.drop_last());
        if s.last() > m { s.last() as int } else { m }
    }
}

proof fn lemma_max_of(s: Seq<usize>)
    requires
        s.len() > 0,
    ensures
        forall|i: int| 0 <= i < s.len() ==> #[trigger] s[i] <= max_of(s),
        exists|i: int| 0 <= i < s.len() && #[trigger] s[i] == max_of(s),
    decreases s.len(),
{
    if s.len() > 1 {
        lemma_max_of(s.drop_last());
        let t = s.drop_last();
        assert forall|i: int| 0 <= i < s.len() implies #[trigger] s[i] <= max_of(s) by {
            if i < s.len() - 1 {
                assert(s[i] == t[i]);
            }
        }
        if s.last() > max_of(t) {
            assert(s[s.len() - 1] == max_of(s));
        } else {
            let i = choose|i: int| 0 <= i < t.len() && #[trigger] t[i] == max_of(t);
            assert(s[i] == max_of(s));
        }
    } else {
        assert(s[0] == max_of(s));
    }
}

impl Mo {
    /// The left ends of the queries.
    pub closed spec fn lefts(&self) -> Seq<usize> {
        self.ls@
    }

    /// The right ends of the queries.
    pub closed spec fn rights(&self) -> Seq<usize> {
        self.rs@
    }

    /// No queries.
    pub fn new() -> (r: Self)
        ensures
            r.lefts() == Seq::<usize>::empty(),
            r.rights() == Seq::<usize>::empty(),
    {
        Mo { ls: Vec::new(), rs: Vec::new() }
    }

    /// Add the query `[l, r]`.
    pub fn add_range_queue(&mut self, l: usize, r: usize)
        ensures
            final(self).lefts() == old(self).lefts().push(l),
            final(self).rights() == old(self).rights().push(r),
    {
        self.ls.push(l);
        self.rs.push(r);
    }

    /// The block length for `q` queries over positions below `n`.
    pub open spec fn block(n: int, q: int) -> int {
        n / ((choose|s: int| is_isqrt(q, s)) + 1) + 1
    }

    /// The queries in Mo's order: sorted by their key, ties in the order they were added.
    pub fn into_iter(self) -> (it: MoIterator)
        requires
            self.rights().len() > 0,
            self.lefts().len() == self.rights().len(),
            max_of(self.rights()) < usize::MAX,
        ensures
            it.well_formed(),
            it.lefts() == self.lefts(),
            it.rights() == self.rights(),
            it.remaining().len() == self.rights().len(),
            it.remaining().no_duplicates(),
            forall|k: int| 0 <= k < it.remaining().len() ==> #[trigger] it.remaining()[k] < self.rights().len(),
            mo_ordered(
                self.lefts(),
                self.rights(),
                max_of(self.rights()) + 1,
                Mo::block(max_of(self.rights()) + 1, self.rights().len() as int),
                it.remaining(),
            ),
    {
        let q = self.rs.len();
        let mut mx: usize = self.rs[0];
        let mut i: usize = 1;
        while i < q
            invariant
                q == self.rs.len(),
                1 <= i <= q,
                mx == max_of(self.rs@.subrange(0, i as int)),
            decreases q - i,
        {
            let ghost t = self.rs@.subrange(0, i + 1);
            assert(t.drop_last() =~= self.rs@.subrange(0, i as int));
            if self.rs[i] > mx {
                mx = self.rs[i];
            }
            i += 1;
        }
        assert(self.rs@.subrange(0, q as int) =~= self.rs@);
        proof {
            lemma_max_of(self.rs@);
        }
        let n = mx + 1;
        let s64 = isqrt(q as u64);
        proof {
            assert(s64 <= q) by (nonlinear_arith)
                requires
                    s64 * s64 <= q,
                    s64 >= 0,
            ;
            assert(s64 >= 1) by (nonlinear_arith)
                requires
                    q < (s64 + 1) * (s64 + 1),
                    q >= 1,
                    s64 >= 0,
            ;
            assert(s64 < usize::MAX) by (nonlinear_arith)
                requires
                    s64 * s64 <= q,
                    q <= usize::MAX,
                    s64 >= 1,
                    usize::MAX >= 4,
            ;
        }
        let s = s64 as usize;
        proof {
            assert((n as int) / ((s + 1) as int) <= (n as int) / 2) by {
                vstd::arithmetic::div_mod::lemma_div_is_ordered_by_denominator(n as int, 2, (s + 1) as int);
            }
        }
        let d = n / (s + 1) + 1;
        let ghost dd = d as int;
        proof {
            let c = choose|s2: int| is_isqrt(q as int, s2);
            assert(is_isqrt(q as int, s as int));
            lemma_isqrt_unique(q as int, s as int, c);
            assert(d == Mo::block(n as int, q as int));
        }
        let mut keyed: Vec<(usize, usize, usize)> = Vec::new();
        let mut j: usize = 0;
        while j < q
            invariant
                q == self.rs.len(),
                q == self.ls.len(),
                n == max_of(self.rs@) + 1,
                forall|k: int| 0 <= k < q ==> #[trigger] self.rs@[k] <= max_of(self.rs@),
                d >= 1,
                j <= q,
                keyed.len() == j,
                forall|k: int|
                    0 <= k < j ==> {
                        let key = mo_key(self.ls@, self.rs@, n as int, d as int, k);
                        #[trigger] keyed@[k] == (key.0 as usize, key.1 as usize, k as usize)
                    },
            decreases q - j,
        {
            let div = self.ls[j] / d;
            let key = if div % 2 == 0 { (div, self.rs[j], j) } else { (div, n - self.rs[j], j) };
            keyed.push(key);
            j += 1;
        }
        let ghost unsorted = keyed@;
        sort_triples(&mut keyed);
        let mut indexes: Vec<usize> = Vec::new();
        let mut j: usize = 0;
        while j < q
            invariant
                q == keyed.len(),
                j <= q,
                indexes@ == keyed@.subrange(0, j as int).map_values(|t: (usize, usize, usize)| t.2),
            decreases q - j,
        {
            indexes.push(keyed[j].2);
            assert(indexes@ =~= keyed@.subrange(0, j + 1).map_values(|t: (usize, usize, usize)| t.2));
            j += 1;
        }
        proof {
            assert(keyed@.subrange(0, q as int) =~= keyed@);
            lemma_indexes_perm(unsorted, keyed@, indexes@, q as nat);
            let sorted = keyed@;
            assert forall|a: int, b: int|
                #![trigger indexes@[a], indexes@[b]]
                0 <= a < b < indexes@.len() implies {
                    let ia = indexes@[a] as int;
                    let ib = indexes@[b] as int;
                    let ka = mo_key(self.ls@, self.rs@, n as int, d as int, ia);
                    let kb = mo_key(self.ls@, self.rs@, n as int, d as int, ib);
                    ka.0 < kb.0 || (ka.0 == kb.0 && (ka.1 < kb.1 || (ka.1 == kb.1 && ia <= ib)))
                } by {
                assert(unsorted.contains(sorted[a]) && unsorted.contains(sorted[b]));
                let ka = choose|kk: int| 0 <= kk < unsorted.len() && unsorted[kk] == sorted[a];
                let kb = choose|kk: int| 0 <= kk < unsorted.len() && unsorted[kk] == sorted[b];
                assert(triple_le(sorted[a], sorted[b]));
                assert(indexes@[a] == sorted[a].2 && indexes@[b] == sorted[b].2);
            }
            let it_rem = indexes@.subrange(0, indexes@.len() as int);
            assert(it_rem =~= indexes@);
        }
        MoIterator { indexes, pos: 0, ls: self.ls, rs: self.rs }
    }

    /// The positions to add when the window `[l0, r0]` grows to `[l1, r1]`: from `l0 - 1`
    /// down to `l1`, then from `r0 + 1` up to `r1`.
    pub fn add_chain(l0: usize, r0: usize, l1: usize, r1: usize) -> (r: Vec<usize>)
        requires
            r0 < usize::MAX,
        ensures
            r@ == Seq::new(if l1 < l0 { (l0 - l1) as nat } else { 0 }, |k: int| (l0 - 1 - k) as usize) + Seq::new(
                if r0 + 1 <= r1 { (r1 - r0) as nat } else { 0 },
                |k: int| (r0 + 1 + k) as usize,
            ),
    {
        let mut ret: Vec<usize> = Vec::new();
        let mut x = l0;
        while x > l1
            invariant
                l1 <= x <= l0 || (l0 < l1 && x == l0),
                ret@ == Seq::new((l0 - x) as nat, |k: int| (l0 - 1 - k) as usize),
            decreases x,
        {
            x -= 1;
            ret.push(x);
            assert(ret@ =~= Seq::new((l0 - x) as nat, |k: int| (l0 - 1 - k) as usize));
        }
        let ghost first = ret@;
        assert(first =~= Seq::new(if l1 < l0 { (l0 - l1) as nat } else { 0 }, |k: int| (l0 - 1 - k) as usize));
        let cnt: usize = if r0 + 1 <= r1 { r1 - r0 } else { 0 };
        let mut k: usize = 0;
        while k < cnt
            invariant
                k <= cnt,
                cnt == (if r0 + 1 <= r1 { r1 - r0 } else { 0 }),
                r0 < usize::MAX,
                ret@ == first + Seq::new(k as nat, |j: int| (r0 + 1 + j) as usize),
            decreases cnt - k,
        {
            ret.push(r0 + 1 + k);
            k += 1;
            assert(ret@ =~= first + Seq::new(k as nat, |j: int| (r0 + 1 + j) as usize));
        }
        assert(ret@ =~= first + Seq::new(if r0 + 1 <= r1 { (r1 - r0) as nat } else { 0 }, |k: int| (r0 + 1 + k) as usize));
        ret
    }

    /// The positions to remove when the window `[l0, r0]` shrinks to `[l1, r1]`: from `l0`
    /// up to `l1 - 1`, then from `r0` down to `r1 + 1`.
    pub fn remove_chain(l0: usize, r0: usize, l1: usize, r1: usize) -> (r: Vec<usize>)
        requires
            r1 < usize::MAX,
        ensures
            r@ == Seq::new(if l0 < l1 { (l1 - l0) as nat } else { 0 }, |k: int| (l0 + k) as usize) + Seq::new(
                if r1 + 1 <= r0 { (r0 - r1) as nat } else { 0 },
                |k: int| (r0 - k) as usize,
            ),
    {
        let mut ret: Vec<usize> = Vec::new();
        let mut x = l0;
        while x < l1
            invariant
                l0 <= x <= l1 || (l1 < l0 && x == l0),
                ret@ == Seq::new((x - l0) as nat, |k: int| (l0 + k) as usize),
            decreases l1 - x,
        {
            ret.push(x);
            x += 1;
            assert(ret@ =~= Seq::new((x - l0) as nat, |k: int| (l0 + k) as usize));
        }
        let ghost first = ret@;
        assert(first =~= Seq::new(if l0 < l1 { (l1 - l0) as nat } else { 0 }, |k: int| (l0 + k) as usize));
        let mut y = r0;
        while y > r1
            invariant
                r1 <= y <= r0 || (r0 < r1 && y == r0),
                ret@ == first + Seq::new((r0 - y) as nat, |k: int| (r0 - k) as usize),
            decreases y,
        {
            ret.push(y);
            assert(ret@ =~= first + Seq::new((r0 - y + 1) as nat, |k: int| (r0 - k) as usize));
            y -= 1;
        }
        assert(ret@ =~= first + Seq::new(if r1 + 1 <= r0 { (r0 - r1) as nat } else { 0 }, |k: int| (r0 - k) as usize));
        ret
    }
}

proof fn lemma_isqrt_unique(q: int, a: int, b: int)
    requires
        is_isqrt(q, a),
        is_isqrt(q, b),
    ensures
        a == b,
{
    if a < b {
        assert((a + 1) * (a + 1) <= b * b) by (nonlinear_arith)
            requires
                a + 1 <= b,
                a >= 0,
        ;
    } else if b < a {
        assert((b + 1) * (b + 1) <= a * a) by (nonlinear_arith)
            requires
                b + 1 <= a,
                b >= 0,
        ;
    }
}

/// Taking the third entries of a permutation of `(key, i)` for `i < q` gives distinct
/// numbers below `q`.
proof fn lemma_indexes_perm(
    unsorted: Seq<(usize, usize, usize)>,
    sorted: Seq<(usize, usize, usize)>,
    indexes: Seq<usize>,
    q: nat,
)
    requires
        unsorted.len() == q,
        forall|k: int| 0 <= k < q ==> (#[trigger] unsorted[k]).2 == k,
        sorted.to_multiset() == unsorted.to_multiset(),
        indexes == sorted.map_values(|t: (usize, usize, usize)| t.2),
    ensures
        indexes.len() == q,
        indexes.no_duplicates(),
        forall|k: int| 0 <= k < indexes.len() ==> #[trigger] indexes[k] < q,
        forall|a: int| 0 <= a < sorted.len() ==> unsorted.contains(#[trigger] sorted[a]),
{
    broadcast use vstd::seq_lib::group_to_multiset_ensures;
    broadcast use vstd::multiset::group_multiset_axioms;

    assert(unsorted.no_duplicates()) by {
        assert forall|i: int, j: int| 0 <= i < unsorted.len() && 0 <= j < unsorted.len() && i != j implies unsorted[i]
            != unsorted[j] by {
            assert(unsorted[i].2 == i && unsorted[j].2 == j);
        }
    }
    unsorted.lemma_multiset_has_no_duplicates();
    sorted.lemma_multiset_has_no_duplicates_conv();
    assert(sorted.to_multiset().len() == sorted.len());
    assert(unsorted.to_multiset().len() == unsorted.len());
    assert(sorted.len() == q);
    assert forall|a: int| 0 <= a < sorted.len() implies unsorted.contains(#[trigger] sorted[a]) by {
        assert(sorted.contains(sorted[a]));
        assert(sorted.to_multiset().count(sorted[a]) > 0);
        assert(unsorted.to_multiset().count(sorted[a]) > 0);
    }
    assert forall|k: int| 0 <= k < indexes.len() implies #[trigger] indexes[k] < q by {
        assert(unsorted.contains(sorted[k]));
        let kk = choose|kk: int| 0 <= kk < unsorted.len() && unsorted[kk] == sorted[k];
        assert(indexes[k] == sorted[k].2);
    }
    assert forall|a: int, b: int| 0 <= a < indexes.len() && 0 <= b < indexes.len() && a != b implies indexes[a]
        != indexes[b] by {
        assert(unsorted.contains(sorted[a]) && unsorted.contains(sorted[b]));
        let ka = choose|kk: int| 0 <= kk < unsorted.len() && unsorted[kk] == sorted[a];
        let kb = choose|kk: int| 0 <= kk < unsorted.len() && unsorted[kk] == sorted[b];
        assert(indexes[a] == sorted[a].2 && indexes[b] == sorted[b].2);
        assert(sorted[a] != sorted[b]);
    }
}

impl MoIterator {
    /// The left ends of the queries.
    pub closed spec fn lefts(&self) -> Seq<usize> {
        self.ls@
    }

    /// The right ends of the queries.
    pub closed spec fn rights(&self) -> Seq<usize> {
        self.rs@
    }

    /// The internal invariant: every query number is a query.
    pub closed spec fn well_formed(&self) -> bool {
        &&& self.pos <= self.indexes.len()
        &&& self.ls.len() == self.rs.len()
        &&& forall|k: int| 0 <= k < self.indexes.len() ==> #[trigger] self.indexes@[k] < self.ls.len()
    }

    /// The query numbers still to come.
    pub closed spec fn remaining(&self) -> Seq<usize> {
        self.indexes@.subrange(self.pos as int, self.indexes@.len() as int)
    }

    /// The next query: its number and its range.
    pub fn next(&mut self) -> (r: Option<(usize, (usize, usize))>)
        requires
            old(self).well_formed(),
        ensures
            final(self).well_formed(),
            final(self).lefts() == old(self).lefts(),
            final(self).rights() == old(self).rights(),
            match r {
                None => old(self).remaining().len() == 0 && final(self).remaining() == old(self).remaining(),
                Some((i, (l, rr))) => old(self).remaining().len() > 0 && i == old(self).remaining()[0] && l
                    == old(self).lefts()[i as int] && rr == old(self).rights()[i as int] && final(self).remaining()
                    == old(self).remaining().drop_first(),
            },
    {
        if self.pos < self.indexes.len() {
            let i = self.indexes[self.pos];
            assert(self.remaining()[0] == i);
            self.pos += 1;
            assert(self.remaining() =~= old(self).remaining().drop_first());
            Some((i, (self.ls[i], self.rs[i])))
        } else {
            None
        }
    }
}

} // verus!
