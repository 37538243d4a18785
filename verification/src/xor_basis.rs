//! A reduced XOR basis: each element's highest set bit is clear in every other element.
use vstd::prelude::*;
use crate::ordering::{sort_vec, sorted};

verus! {

/// The highest set bit of `x` is bit `m`.
pub open spec fn top_bit(x: usize, m: usize) -> bool {
    m < usize::BITS && x >> m == 1
}

/// Bit `k` of `x` is clear.
pub open spec fn bit_clear(x: usize, k: usize) -> bool {
    k < usize::BITS && (x >> k) & 1 == 0
}

/// Every element is positive, and each element's highest set bit is clear in every other.
pub open spec fn reduced(b: Seq<usize>) -> bool {
    &&& forall|i: int| 0 <= i < b.len() ==> #[trigger] b[i] > 0
    &&& forall|i: int, j: int, m: usize|
        0 <= i < b.len() && 0 <= j < b.len() && i != j && #[trigger] top_bit(b[i], m) ==> #[trigger] bit_clear(b[j], m)
}

/// Every positive value has a highest set bit.
proof fn lemma_top_bit_exists(x: usize)
    requires
        x > 0,
    ensures
        exists|m: usize| #[trigger] top_bit(x, m),
{
    assert(x >> 0usize == x) by (bit_vector);
    lemma_top_bit_from(x, 0);
}

proof fn lemma_top_bit_from(x: usize, m: usize)
    requires
        m < usize::BITS,
        x >> m >= 1,
    ensures
        exists|t: usize| #[trigger] top_bit(x, t),
    decreases usize::BITS - m,
{
    if x >> m == 1 {
        assert(top_bit(x, m));
    } else {
        assert(m < usize::BITS && x >> m > 1 ==> m + 1 < usize::BITS && (x >> (m + 1) as usize) >= 1) by (bit_vector);
        lemma_top_bit_from(x, (m + 1) as usize);
    }
}

/// Taking `x ^ b` when it is smaller clears the highest set bit `m` of `b` in `x` and keeps
/// every bit where `b` is clear.
proof fn lemma_reduce(x: usize, b: usize, m: usize, k: usize)
    requires
        top_bit(b, m),
        k < usize::BITS,
    ensures
        bit_clear(if (x ^ b) < x { x ^ b } else { x }, m),
        bit_clear(b, k) ==> ((if (x ^ b) < x { x ^ b } else { x }) >> k) & 1 == (x >> k) & 1,
{
    assert(m < usize::BITS && b >> m == 1 ==> (((if (x ^ b) < x { x ^ b } else { x }) >> m) & 1 == 0)) by (bit_vector);
    assert(k < usize::BITS && (b >> k) & 1 == 0 ==> (((if (x ^ b) < x { x ^ b } else { x }) >> k) & 1 == (x >> k) & 1))
        by (bit_vector);
}

/// Taking `x ^ b` when it is smaller keeps the highest set bit `m` of `x` when bit `m` of
/// `b` is clear.
proof fn lemma_reduce_keeps_top(x: usize, b: usize, m: usize)
    requires
        top_bit(x, m),
        bit_clear(b, m),
    ensures
        top_bit(if (x ^ b) < x { x ^ b } else { x }, m),
{
    assert(m < usize::BITS && x >> m == 1 && (b >> m) & 1 == 0 ==> (if (x ^ b) < x { x ^ b } else { x }) >> m == 1)
        by (bit_vector);
}

/// The XOR of the elements of `b` that `mask` selects.
pub open spec fn xor_of(b: Seq<usize>, mask: Seq<bool>) -> usize
    decreases b.len(),
{
    if b.len() == 0 {
        0
    } else {
        let r = xor_of(b.drop_last(), mask.drop_last());
        if mask.last() {
            r ^ b.last()
        } else {
            r
        }
    }
}

/// `v` is the XOR of some of the elements of `b`.
pub open spec fn in_span(b: Seq<usize>, v: usize) -> bool {
    exists|m: Seq<bool>| m.len() == b.len() && #[trigger] xor_of(b, m) == v
}

proof fn lemma_span_zero(b: Seq<usize>)
    ensures
        in_span(b, 0),
    decreases b.len(),
{
    let m = Seq::new(b.len(), |i: int| false);
    lemma_xor_none(b, m);
    assert(xor_of(b, m) == 0);
}

proof fn lemma_xor_none(b: Seq<usize>, m: Seq<bool>)
    requires
        m.len() == b.len(),
        forall|i: int| 0 <= i < m.len() ==> !m[i],
    ensures
        xor_of(b, m) == 0,
    decreases b.len(),
{
    if b.len() > 0 {
        lemma_xor_none(b.drop_last(), m.drop_last());
    }
}

proof fn lemma_xor_unit(b: Seq<usize>, m: Seq<bool>, j: int)
    requires
        m.len() == b.len(),
        0 <= j < b.len(),
        forall|i: int| 0 <= i < m.len() ==> m[i] == (i == j),
    ensures
        xor_of(b, m) == b[j],
    decreases b.len(),
{
    if j == b.len() - 1 {
        lemma_xor_none(b.drop_last(), m.drop_last());
        let z = b.last();
        assert(0usize ^ z == z) by (bit_vector);
    } else {
        lemma_xor_unit(b.drop_last(), m.drop_last(), j);
    }
}

proof fn lemma_span_elem(b: Seq<usize>, j: int)
    requires
        0 <= j < b.len(),
    ensures
        in_span(b, b[j]),
{
    let m = Seq::new(b.len(), |i: int| i == j);
    lemma_xor_unit(b, m, j);
}

proof fn lemma_xor_combine(b: Seq<usize>, m1: Seq<bool>, m2: Seq<bool>)
    requires
        m1.len() == b.len(),
        m2.len() == b.len(),
    ensures
        xor_of(b, Seq::new(b.len(), |i: int| m1[i] != m2[i])) == xor_of(b, m1) ^ xor_of(b, m2),
    decreases b.len(),
{
    let m = Seq::new(b.len(), |i: int| m1[i] != m2[i]);
    if b.len() > 0 {
        let bd = b.drop_last();
        assert(m.drop_last() =~= Seq::new(bd.len(), |i: int| m1.drop_last()[i] != m2.drop_last()[i]));
        lemma_xor_combine(bd, m1.drop_last(), m2.drop_last());
        let r1 = xor_of(bd, m1.drop_last());
        let r2 = xor_of(bd, m2.drop_last());
        let c = b.last();
        assert((r1 ^ c) ^ r2 == (r1 ^ r2) ^ c) by (bit_vector);
        assert(r1 ^ (r2 ^ c) == (r1 ^ r2) ^ c) by (bit_vector);
        assert((r1 ^ c) ^ (r2 ^ c) == r1 ^ r2) by (bit_vector);
        assert(xor_of(b, m) == if m.last() { xor_of(bd, m.drop_last()) ^ c } else { xor_of(bd, m.drop_last()) });
        assert(xor_of(b, m1) == if m1.last() { r1 ^ c } else { r1 });
        assert(xor_of(b, m2) == if m2.last() { r2 ^ c } else { r2 });
    } else {
        assert(0usize ^ 0usize == 0usize) by (bit_vector);
    }
}

proof fn lemma_span_xor(b: Seq<usize>, u: usize, v: usize)
    requires
        in_span(b, u),
        in_span(b, v),
    ensures
        in_span(b, u ^ v),
{
    let m1 = choose|m: Seq<bool>| m.len() == b.len() && #[trigger] xor_of(b, m) == u;
    let m2 = choose|m: Seq<bool>| m.len() == b.len() && #[trigger] xor_of(b, m) == v;
    lemma_xor_combine(b, m1, m2);
    let m = Seq::new(b.len(), |i: int| m1[i] != m2[i]);
    assert(xor_of(b, m) == u ^ v);
}

/// What the elements of `bs` span, `c` spans too, when it spans each of them.
proof fn lemma_subspan(bs: Seq<usize>, c: Seq<usize>, m: Seq<bool>)
    requires
        m.len() == bs.len(),
        forall|j: int| 0 <= j < bs.len() ==> #[trigger] in_span(c, bs[j]),
    ensures
        in_span(c, xor_of(bs, m)),
    decreases bs.len(),
{
    if bs.len() == 0 {
        lemma_span_zero(c);
    } else {
        let bd = bs.drop_last();
        assert forall|j: int| 0 <= j < bd.len() implies #[trigger] in_span(c, bd[j]) by {
            assert(in_span(c, bs[j]));
        }
        lemma_subspan(bd, c, m.drop_last());
        if m.last() {
            assert(in_span(c, bs[bs.len() - 1]));
            lemma_span_xor(c, xor_of(bd, m.drop_last()), bs.last());
        }
    }
}

proof fn lemma_span_sub(bs: Seq<usize>, c: Seq<usize>, v: usize)
    requires
        in_span(bs, v),
        forall|j: int| 0 <= j < bs.len() ==> #[trigger] in_span(c, bs[j]),
    ensures
        in_span(c, v),
{
    let m = choose|m: Seq<bool>| m.len() == bs.len() && #[trigger] xor_of(bs, m) == v;
    lemma_subspan(bs, c, m);
}

proof fn lemma_span_push(b: Seq<usize>, x: usize, v: usize)
    requires
        in_span(b, v),
    ensures
        in_span(b.push(x), v),
{
    let m = choose|m: Seq<bool>| m.len() == b.len() && #[trigger] xor_of(b, m) == v;
    let m2 = m.push(false);
    assert(b.push(x).drop_last() =~= b);
    assert(m2.drop_last() =~= m);
    assert(xor_of(b.push(x), m2) == v);
}

/// `z`, or `z ^ x` when that is smaller.
pub open spec fn red(z: usize, x: usize) -> usize {
    if (z ^ x) < z {
        z ^ x
    } else {
        z
    }
}

proof fn lemma_top_facts(x: usize, m: usize, m2: usize)
    requires
        top_bit(x, m),
    ensures
        x > 0,
        !bit_clear(x, m),
        top_bit(x, m2) ==> m2 == m,
{
    assert(m < usize::BITS && x >> m == 1 ==> x > 0 && (x >> m) & 1 == 1) by (bit_vector);
    assert(m < usize::BITS && m2 < usize::BITS && x >> m == 1 && x >> m2 == 1 ==> m == m2) by (bit_vector);
}

/// A reduced basis of the values: positive elements in increasing order, each one's highest
/// set bit clear in all the others.
pub fn xor_basis(a: &[usize]) -> (basis: Vec<usize>)
    ensures
        reduced(basis@),
        sorted(basis@),
        forall|i: int| 0 <= i < a@.len() ==> #[trigger] in_span(basis@, a@[i]),
        forall|i: int| 0 <= i < basis@.len() ==> #[trigger] in_span(a@, basis@[i]),
{
    let mut basis: Vec<usize> = Vec::new();
    for idx in 0..a.len()
        invariant
            reduced(basis@),
            forall|i: int| 0 <= i < idx ==> #[trigger] in_span(basis@, a@[i]),
            forall|i: int| 0 <= i < basis@.len() ==> #[trigger] in_span(a@, basis@[i]),
    {
        let mut x = a[idx];
        let n = basis.len();
        proof {
            let v = a@[idx as int];
            assert(v ^ v == 0usize) by (bit_vector);
            lemma_span_zero(basis@);
            lemma_span_elem(a@, idx as int);
        }
        for t in 0..n
            invariant
                n == basis@.len(),
                reduced(basis@),
                forall|u: int, m: usize| 0 <= u < t && #[trigger] top_bit(basis@[u], m) ==> bit_clear(x, m),
                in_span(basis@, a@[idx as int] ^ x),
                forall|i: int| 0 <= i < basis@.len() ==> #[trigger] in_span(a@, basis@[i]),
                in_span(a@, x),
        {
            let base = basis[t];
            let ghost x0 = x;
            let y = x ^ base;
            if y < x {
                x = y;
            }
            proof {
                let v = a@[idx as int];
                if y < x0 {
                    assert(in_span(a@, basis@[t as int]));
                    lemma_span_xor(a@, x0, base);
                    lemma_span_elem(basis@, t as int);
                    lemma_span_xor(basis@, v ^ x0, base);
                    assert((v ^ x0) ^ base == v ^ (x0 ^ base)) by (bit_vector);
                }
                assert(x == red(x0, base));
                assert forall|u: int, m: usize| 0 <= u < t + 1 && #[trigger] top_bit(basis@[u], m) implies bit_clear(x, m) by {
                    if u < t {
                        assert(bit_clear(x0, m));
                        assert(bit_clear(base, m));
                        assert(basis@[t as int] > 0);
                        lemma_top_bit_exists(base);
                        let mb = choose|mb: usize| #[trigger] top_bit(base, mb);
                        lemma_reduce(x0, base, mb, m);
                    } else {
                        lemma_reduce(x0, base, m, m);
                    }
                }
            }
        }
        if x > 0 {
            let ghost b0 = basis@;
            proof {
                lemma_top_bit_exists(x);
            }
            let ghost mx = choose|mx: usize| #[trigger] top_bit(x, mx);
            for t in 0..n
                invariant
                    n == basis@.len(),
                    n == b0.len(),
                    reduced(b0),
                    top_bit(x, mx),
                    forall|u: int, m: usize| 0 <= u < n && #[trigger] top_bit(b0[u], m) ==> bit_clear(x, m),
                    forall|u: int| 0 <= u < t ==> #[trigger] basis@[u] == red(b0[u], x),
                    forall|u: int| t <= u < n ==> #[trigger] basis@[u] == b0[u],
                    forall|i: int| 0 <= i < b0.len() ==> #[trigger] in_span(a@, b0[i]),
                    forall|i: int| 0 <= i < basis@.len() ==> #[trigger] in_span(a@, basis@[i]),
                    in_span(a@, x),
            {
                let base = basis[t];
                let y = x ^ base;
                proof {
                    assert(x ^ base == base ^ x) by (bit_vector);
                }
                if y < base {
                    proof {
                        assert(in_span(a@, b0[t as int]));
                        lemma_span_xor(a@, base, x);
                    }
                    basis.set(t, y);
                }
            }
            proof {
                lemma_push_reduced(b0, basis@, x, mx);
            }
            let ghost b1 = basis@;
            basis.push(x);
            proof {
                lemma_span_after_push(b0, b1, x);
                let v = a@[idx as int];
                assert forall|i: int| 0 <= i < basis@.len() implies #[trigger] in_span(a@, basis@[i]) by {
                    if i < n {
                        assert(basis@[i] == b1[i]);
                    }
                }
                assert forall|i: int| 0 <= i < idx + 1 implies #[trigger] in_span(basis@, a@[i]) by {
                    if i < idx {
                        lemma_span_sub(b0, basis@, a@[i]);
                    } else {
                        lemma_span_sub(b0, basis@, v ^ x);
                        lemma_span_elem(basis@, n as int);
                        lemma_span_xor(basis@, v ^ x, x);
                        assert((v ^ x) ^ x == v) by (bit_vector);
                    }
                }
            }
        } else {
            proof {
                let v = a@[idx as int];
                assert(v ^ 0usize == v) by (bit_vector);
            }
        }
    }
    let ghost before = basis@;
    sort_vec(&mut basis);
    proof {
        lemma_reduced_perm(before, basis@);
        lemma_span_perm(before, basis@);
        assert forall|i: int| 0 <= i < a@.len() implies #[trigger] in_span(basis@, a@[i]) by {
            lemma_span_sub(before, basis@, a@[i]);
        }
        assert forall|i: int| 0 <= i < basis@.len() implies #[trigger] in_span(a@, basis@[i]) by {
            broadcast use vstd::seq_lib::group_to_multiset_ensures;
            assert(basis@.contains(basis@[i]));
            assert(before.to_multiset().count(basis@[i]) > 0);
            assert(before.contains(basis@[i]));
        }
    }
    basis
}

/// After the elements are reduced by `x` and `x` is appended, the old elements are still
/// spanned.
proof fn lemma_span_after_push(b0: Seq<usize>, b: Seq<usize>, x: usize)
    requires
        b.len() == b0.len(),
        forall|u: int| 0 <= u < b0.len() ==> #[trigger] b[u] == red(b0[u], x),
    ensures
        forall|j: int| 0 <= j < b0.len() ==> #[trigger] in_span(b.push(x), b0[j]),
{
    let c = b.push(x);
    assert forall|j: int| 0 <= j < b0.len() implies #[trigger] in_span(c, b0[j]) by {
        assert(c[j] == b[j]);
        lemma_span_elem(c, j);
        if (b0[j] ^ x) < b0[j] {
            assert(c[b.len() as int] == x);
            lemma_span_elem(c, b.len() as int);
            lemma_span_xor(c, b[j], x);
            let z = b0[j];
            assert((z ^ x) ^ x == z) by (bit_vector);
        }
    }
}

/// The same elements in another order span the same values.
proof fn lemma_span_perm(b: Seq<usize>, c: Seq<usize>)
    requires
        c.to_multiset() == b.to_multiset(),
    ensures
        forall|j: int| 0 <= j < b.len() ==> #[trigger] in_span(c, b[j]),
{
    broadcast use vstd::seq_lib::group_to_multiset_ensures;

    assert forall|j: int| 0 <= j < b.len() implies #[trigger] in_span(c, b[j]) by {
        assert(b.contains(b[j]));
        assert(c.to_multiset().count(b[j]) > 0);
        assert(c.contains(b[j]));
        let k = choose|k: int| 0 <= k < c.len() && c[k] == b[j];
        lemma_span_elem(c, k);
    }
}

/// `p` and `q` have the same highest set bit.
pub open spec fn same_top(p: usize, q: usize) -> bool {
    exists|m: usize| #[trigger] top_bit(p, m) && top_bit(q, m)
}

/// Reducing every element by `x` (whose highest set bit is `mx` and whose bits at the
/// elements' highest bits are clear) and appending `x` keeps the basis reduced.
proof fn lemma_push_reduced(b0: Seq<usize>, b: Seq<usize>, x: usize, mx: usize)
    requires
        reduced(b0),
        top_bit(x, mx),
        b.len() == b0.len(),
        forall|u: int, m: usize| 0 <= u < b0.len() && #[trigger] top_bit(b0[u], m) ==> bit_clear(x, m),
        forall|u: int| 0 <= u < b0.len() ==> #[trigger] b[u] == red(b0[u], x),
    ensures
        reduced(b.push(x)),
{
    let c = b.push(x);
    let n = b0.len() as int;
    lemma_top_facts(x, mx, mx);
    assert forall|u: int| 0 <= u < n implies #[trigger] same_top(b0[u], b[u]) by {
        lemma_top_bit_exists(b0[u]);
        let m = choose|m: usize| #[trigger] top_bit(b0[u], m);
        lemma_reduce_keeps_top(b0[u], x, m);
    }
    assert forall|u: int| 0 <= u < c.len() implies #[trigger] c[u] > 0 by {
        if u < n {
            assert(same_top(b0[u], b[u]));
            let m = choose|m: usize| #[trigger] top_bit(b0[u], m) && top_bit(b[u], m);
            lemma_top_facts(b[u], m, m);
        }
    }
    assert forall|i: int, j: int, m: usize|
        0 <= i < c.len() && 0 <= j < c.len() && i != j && #[trigger] top_bit(c[i], m) implies #[trigger] bit_clear(c[j], m) by {
        if i == n {
            lemma_top_facts(x, mx, m);
            lemma_reduce(b0[j], x, mx, mx);
        } else {
            assert(same_top(b0[i], b[i]));
            let mi = choose|mi: usize| #[trigger] top_bit(b0[i], mi) && top_bit(b[i], mi);
            lemma_top_facts(b[i], mi, m);
            assert(bit_clear(x, m));
            if j == n {
            } else {
                assert(bit_clear(b0[j], m));
                lemma_reduce(b0[j], x, mx, m);
            }
        }
    }
}

/// Reordering a reduced basis keeps it reduced.
proof fn lemma_reduced_perm(b: Seq<usize>, c: Seq<usize>)
    requires
        reduced(b),
        c.to_multiset() == b.to_multiset(),
    ensures
        reduced(c),
{
    broadcast use vstd::seq_lib::group_to_multiset_ensures;

    assert(b.no_duplicates()) by {
        assert forall|i: int, j: int| 0 <= i < b.len() && 0 <= j < b.len() && i != j implies b[i] != b[j] by {
            lemma_top_bit_exists(b[i]);
            let m = choose|m: usize| #[trigger] top_bit(b[i], m);
            lemma_top_facts(b[i], m, m);
            assert(bit_clear(b[j], m));
        }
    }
    b.lemma_multiset_has_no_duplicates();
    c.lemma_multiset_has_no_duplicates_conv();
    assert forall|i: int| 0 <= i < c.len() implies #[trigger] c[i] > 0 by {
        assert(c.contains(c[i]));
        assert(b.to_multiset().count(c[i]) > 0);
        assert(b.contains(c[i]));
    }
    assert forall|i: int, j: int, m: usize|
        0 <= i < c.len() && 0 <= j < c.len() && i != j && #[trigger] top_bit(c[i], m) implies #[trigger] bit_clear(c[j], m) by {
        assert(c.contains(c[i]) && c.contains(c[j]));
        assert(b.to_multiset().count(c[i]) > 0 && b.to_multiset().count(c[j]) > 0);
        assert(b.contains(c[i]) && b.contains(c[j]));
        let p = choose|p: int| 0 <= p < b.len() && b[p] == c[i];
        let q = choose|q: int| 0 <= q < b.len() && b[q] == c[j];
        assert(c[i] != c[j]);
        assert(top_bit(b[p], m));
    }
}

} // verus!
