//! Suffix arrays by prefix doubling: after the round with step `k`, the rank of a position
//! orders its suffix by the first `2k` characters.
use vstd::prelude::*;

verus! {

/// Character `p` of `s`, with `-1` standing for the end, below every character.
pub open spec fn ext(s: Seq<usize>, p: int) -> int {
    if p < s.len() {
        s[p] as int
    } else {
        -1
    }
}

/// The suffix of `s` from `i`, followed by the end mark.
pub open spec fn sfx(s: Seq<usize>, i: int) -> Seq<int> {
    Seq::new((s.len() + 1 - i) as nat, |t: int| ext(s, i + t))
}

/// The first `k` entries of `sfx(s, i)`, or all of them if there are fewer.
pub open spec fn pre(s: Seq<usize>, k: int, i: int) -> Seq<int> {
    let l = if k < s.len() + 1 - i { k } else { s.len() + 1 - i };
    Seq::new(l as nat, |t: int| ext(s, i + t))
}

/// Dictionary order: `-1` when `a` comes first, `1` when `b` does, `0` when equal; a proper
/// prefix comes first.
pub open spec fn lex(a: Seq<int>, b: Seq<int>) -> int
    decreases a.len(),
{
    if a.len() == 0 {
        if b.len() == 0 {
            0
        } else {
            -1
        }
    } else if b.len() == 0 {
        1
    } else if a[0] < b[0] {
        -1
    } else if a[0] > b[0] {
        1
    } else {
        lex(a.drop_first(), b.drop_first())
    }
}

/// Suffix `i` of `s` comes before suffix `j` in dictionary order.
pub open spec fn suffix_before(s: Seq<usize>, i: int, j: int) -> bool {
    lex(sfx(s, i), sfx(s, j)) < 0
}

/// The sign of `x - y`.
pub open spec fn sign(x: int, y: int) -> int {
    if x < y {
        -1
    } else if x > y {
        1
    } else {
        0
    }
}

proof fn lemma_lex_zero(a: Seq<int>, b: Seq<int>)
    ensures
        lex(a, b) == 0 <==> a == b,
        lex(a, b) == -lex(b, a),
    decreases a.len(),
{
    if a.len() > 0 && b.len() > 0 && a[0] == b[0] {
        lemma_lex_zero(a.drop_first(), b.drop_first());
        if a.drop_first() == b.drop_first() {
            assert(a =~= seq![a[0]] + a.drop_first());
            assert(b =~= seq![b[0]] + b.drop_first());
        }
    }
    if a == b && a.len() > 0 {
        lemma_lex_zero(a.drop_first(), b.drop_first());
    }
    if a.len() == 0 && b.len() == 0 {
        assert(a =~= b);
    }
}

/// A common prefix does not change the order.
proof fn lemma_lex_common(p: Seq<int>, x: Seq<int>, y: Seq<int>)
    ensures
        lex(p + x, p + y) == lex(x, y),
    decreases p.len(),
{
    if p.len() > 0 {
        assert((p + x).drop_first() =~= p.drop_first() + x);
        assert((p + y).drop_first() =~= p.drop_first() + y);
        lemma_lex_common(p.drop_first(), x, y);
    } else {
        assert(p + x =~= x);
        assert(p + y =~= y);
    }
}

/// A difference inside both sequences decides the order, whatever follows.
proof fn lemma_lex_differ(a: Seq<int>, b: Seq<int>, x: Seq<int>, y: Seq<int>, t: int)
    requires
        0 <= t < a.len(),
        t < b.len(),
        a[t] != b[t],
    ensures
        lex(a + x, b + y) == lex(a, b),
    decreases t,
{
    if a[0] == b[0] {
        assert((a + x).drop_first() =~= a.drop_first() + x);
        assert((b + y).drop_first() =~= b.drop_first() + y);
        lemma_lex_differ(a.drop_first(), b.drop_first(), x, y, t - 1);
    }
}

/// The first `2k` entries are the first `k` followed by the first `k` from `i + k`.
proof fn lemma_pre_split(s: Seq<usize>, k: int, i: int)
    requires
        1 <= k,
        0 <= i <= s.len(),
    ensures
        pre(s, 2 * k, i) == pre(s, k, i) + if i + k <= s.len() { pre(s, k, i + k) } else { Seq::<int>::empty() },
{
    let rhs = pre(s, k, i) + if i + k <= s.len() { pre(s, k, i + k) } else { Seq::<int>::empty() };
    assert(pre(s, 2 * k, i).len() == rhs.len());
    assert forall|t: int| 0 <= t < rhs.len() implies pre(s, 2 * k, i)[t] == rhs[t] by {
        if t >= pre(s, k, i).len() {
            assert(rhs[t] == pre(s, k, i + k)[t - k]);
        }
    }
    assert(pre(s, 2 * k, i) =~= rhs);
}

/// Two different prefixes differ inside both.
proof fn lemma_pre_differ(s: Seq<usize>, k: int, i: int, j: int)
    requires
        1 <= k,
        0 <= i <= s.len(),
        0 <= j <= s.len(),
        pre(s, k, i) != pre(s, k, j),
    ensures
        exists|t: int| 0 <= t < pre(s, k, i).len() && t < pre(s, k, j).len() && pre(s, k, i)[t] != pre(s, k, j)[t],
{
    let a = pre(s, k, i);
    let b = pre(s, k, j);
    let n = s.len() as int;
    if forall|t: int| 0 <= t < a.len() && t < b.len() ==> a[t] == b[t] {
        if a.len() == b.len() {
            assert(a =~= b);
        } else if a.len() < b.len() {
            let t = a.len() - 1;
            assert(a.len() == n + 1 - i);
            assert(a[t] == -1);
            assert(j + t < n);
            assert(b[t] == s[j + t] as int);
        } else {
            let t = b.len() - 1;
            assert(b.len() == n + 1 - j);
            assert(b[t] == -1);
            assert(i + t < n);
            assert(a[t] == s[i + t] as int);
        }
    }
}

/// Equal prefixes of different positions are full and leave room for the next `k`.
proof fn lemma_pre_equal(s: Seq<usize>, k: int, i: int, j: int)
    requires
        1 <= k,
        0 <= i <= s.len(),
        0 <= j <= s.len(),
        i != j,
        pre(s, k, i) == pre(s, k, j),
    ensures
        i + k <= s.len(),
        j + k <= s.len(),
{
    let n = s.len() as int;
    let a = pre(s, k, i);
    let b = pre(s, k, j);
    if a.len() < k {
        assert(a.len() == n + 1 - i);
        assert(b.len() == n + 1 - j);
    }
    assert(a.len() == k);
    if i + k == n + 1 {
        assert(a[k - 1] == -1);
        assert(b[k - 1] == ext(s, j + k - 1));
        assert(j + k - 1 >= n);
    }
    if j + k == n + 1 {
        assert(b[k - 1] == -1);
        assert(a[k - 1] == ext(s, i + k - 1));
        assert(i + k - 1 >= n);
    }
}

/// Ranks that order the positions `0..=n` by their first `k` entries.
pub open spec fn rank_ok(s: Seq<usize>, k: int, rank: Seq<i64>) -> bool {
    &&& rank.len() == s.len() + 1
    &&& forall|i: int, j: int|
        0 <= i <= s.len() && 0 <= j <= s.len() ==> sign(#[trigger] rank[i] as int, #[trigger] rank[j] as int) == lex(
            pre(s, k, i),
            pre(s, k, j),
        )
}

/// The sort key of position `i` in the round with step `k`.
pub open spec fn key(rank: Seq<i64>, k: int, i: int) -> (i64, i64) {
    (rank[i], if i + k < rank.len() { rank[i + k] } else { 0 })
}

/// Lexicographic comparison of keys.
pub open spec fn key_order(a: (i64, i64), b: (i64, i64)) -> int {
    if a.0 != b.0 {
        sign(a.0 as int, b.0 as int)
    } else {
        sign(a.1 as int, b.1 as int)
    }
}

/// Comparing keys built from step-`k` ranks compares the first `2k` entries.
proof fn lemma_doubling(s: Seq<usize>, k: int, rank: Seq<i64>, i: int, j: int)
    requires
        1 <= k,
        rank_ok(s, k, rank),
        0 <= i <= s.len(),
        0 <= j <= s.len(),
    ensures
        key_order(key(rank, k, i), key(rank, k, j)) == lex(pre(s, 2 * k, i), pre(s, 2 * k, j)),
{
    let n = s.len() as int;
    lemma_pre_split(s, k, i);
    lemma_pre_split(s, k, j);
    assert(sign(rank[i] as int, rank[j] as int) == lex(pre(s, k, i), pre(s, k, j)));
    lemma_lex_zero(pre(s, k, i), pre(s, k, j));
    if rank[i] != rank[j] {
        lemma_pre_differ(s, k, i, j);
        let t = choose|t: int| 0 <= t < pre(s, k, i).len() && t < pre(s, k, j).len() && pre(s, k, i)[t] != pre(s, k, j)[t];
        lemma_lex_differ(
            pre(s, k, i),
            pre(s, k, j),
            if i + k <= n { pre(s, k, i + k) } else { Seq::<int>::empty() },
            if j + k <= n { pre(s, k, j + k) } else { Seq::<int>::empty() },
            t,
        );
    } else if i == j {
        lemma_lex_zero(pre(s, 2 * k, i), pre(s, 2 * k, j));
    } else {
        lemma_pre_equal(s, k, i, j);
        lemma_lex_common(pre(s, k, i), pre(s, k, i + k), pre(s, k, j + k));
        assert(sign(rank[i + k] as int, rank[j + k] as int) == lex(pre(s, k, i + k), pre(s, k, j + k)));
    }
}

/// Triples in lexicographic order.
pub open spec fn triples_sorted(v: Seq<(i64, i64, usize)>) -> bool {
    forall|a: int, b: int|
        0 <= a < b < v.len() ==> {
            let x = #[trigger] v[a];
            let y = #[trigger] v[b];
            x.0 < y.0 || (x.0 == y.0 && (x.1 < y.1 || (x.1 == y.1 && x.2 <= y.2)))
        }
}

/// Sort the triples in lexicographic order with `slice::sort`, which sorts in the order of
/// `Ord` (lexicographic for tuples) and only permutes the entries.
#[verifier::external_body]
fn sort_keys(v: &mut Vec<(i64, i64, usize)>)
    ensures
        triples_sorted(final(v)@),
        final(v)@.len() == old(v)@.len(),
        final(v)@.to_multiset() == old(v)@.to_multiset(),
{
    v.sort();
}

/// Dense rank along sorted triples: 0 at the start, one more at each strict increase of the
/// first two entries.
pub open spec fn dense(v: Seq<(i64, i64, usize)>, u: int) -> int
    decreases u,
{
    if u <= 0 {
        0
    } else {
        dense(v, u - 1) + if (v[u - 1].0, v[u - 1].1) != (v[u].0, v[u].1) { 1int } else { 0int }
    }
}

/// Along sorted triples the dense rank orders positions as their first two entries do.
proof fn lemma_dense_order(v: Seq<(i64, i64, usize)>, a: int, b: int)
    requires
        triples_sorted(v),
        0 <= a <= b < v.len(),
    ensures
        dense(v, a) <= dense(v, b),
        dense(v, a) == dense(v, b) <==> (v[a].0, v[a].1) == (v[b].0, v[b].1),
    decreases b - a,
{
    if a < b {
        lemma_dense_order(v, a, b - 1);
        assert(v[b - 1] == v[b - 1] && v[b] == v[b]);
        if a < b - 1 {
            assert(v[a] == v[a]);
        }
    }
}

/// The key triple of position `i` in the round with step `k`.
pub open spec fn key_triple(rank: Seq<i64>, k: int, i: int) -> (i64, i64, usize) {
    (key(rank, k, i).0, key(rank, k, i).1, i as usize)
}

/// After the sort: every position appears once, at a triple carrying its key.
pub open spec fn keyed_perm(v: Seq<(i64, i64, usize)>, rank: Seq<i64>, k: int) -> bool {
    &&& v.len() == rank.len()
    &&& forall|t: int| 0 <= t < v.len() ==> (#[trigger] v[t]).2 < rank.len() && v[t] == key_triple(rank, k, v[t].2 as int)
    &&& forall|i: int| 0 <= i < rank.len() ==> #[trigger] placed(v, i)
    &&& forall|a: int, b: int| 0 <= a < b < v.len() ==> (#[trigger] v[a]).2 != (#[trigger] v[b]).2
}

/// Position `i` is carried by some triple.
pub open spec fn placed(v: Seq<(i64, i64, usize)>, i: int) -> bool {
    exists|t: int| 0 <= t < v.len() && (#[trigger] v[t]).2 == i
}

proof fn lemma_sorted_keyed(v0: Seq<(i64, i64, usize)>, v: Seq<(i64, i64, usize)>, rank: Seq<i64>, k: int)
    requires
        v0.len() == rank.len(),
        rank.len() <= usize::MAX,
        forall|i: int| 0 <= i < v0.len() ==> #[trigger] v0[i] == key_triple(rank, k, i),
        v.to_multiset() == v0.to_multiset(),
        v.len() == v0.len(),
    ensures
        keyed_perm(v, rank, k),
{
    broadcast use vstd::seq_lib::group_to_multiset_ensures;

    assert(v0.no_duplicates()) by {
        assert forall|a: int, b: int| 0 <= a < v0.len() && 0 <= b < v0.len() && a != b implies v0[a] != v0[b] by {
            assert(v0[a].2 == a as usize && v0[b].2 == b as usize);
        }
    }
    v0.lemma_multiset_has_no_duplicates();
    v.lemma_multiset_has_no_duplicates_conv();
    assert forall|t: int| 0 <= t < v.len() implies (#[trigger] v[t]).2 < rank.len() && v[t] == key_triple(rank, k, v[t].2 as int) by {
        assert(v.contains(v[t]));
        assert(v0.to_multiset().count(v[t]) > 0);
        assert(v0.contains(v[t]));
        let i = choose|i: int| 0 <= i < v0.len() && v0[i] == v[t];
        assert(v0[i] == key_triple(rank, k, i));
    }
    assert forall|i: int| 0 <= i < rank.len() implies #[trigger] placed(v, i) by {
        assert(v0.contains(v0[i]));
        assert(v.to_multiset().count(v0[i]) > 0);
        assert(v.contains(v0[i]));
        let t = choose|t: int| 0 <= t < v.len() && v[t] == v0[i];
        assert(v[t].2 == i);
    }
    assert forall|a: int, b: int| 0 <= a < b < v.len() implies (#[trigger] v[a]).2 != (#[trigger] v[b]).2 by {
        assert(v[a] == key_triple(rank, k, v[a].2 as int));
        assert(v[b] == key_triple(rank, k, v[b].2 as int));
    }
}

/// The dense ranks along the sorted key triples order positions by their first `2k` entries.
proof fn lemma_new_ranks(s: Seq<usize>, k: int, rank: Seq<i64>, v: Seq<(i64, i64, usize)>, nrank: Seq<i64>)
    requires
        1 <= k,
        rank_ok(s, k, rank),
        triples_sorted(v),
        keyed_perm(v, rank, k),
        nrank.len() == rank.len(),
        forall|t: int| 0 <= t < v.len() ==> #[trigger] nrank[v[t].2 as int] == dense(v, t),
    ensures
        rank_ok(s, 2 * k, nrank),
{
    assert forall|i: int, j: int|
        0 <= i <= s.len() && 0 <= j <= s.len() implies sign(#[trigger] nrank[i] as int, #[trigger] nrank[j] as int) == lex(
        pre(s, 2 * k, i),
        pre(s, 2 * k, j),
    ) by {
        assert(placed(v, i) && placed(v, j));
        let ti = choose|t: int| 0 <= t < v.len() && (#[trigger] v[t]).2 == i;
        let tj = choose|t: int| 0 <= t < v.len() && (#[trigger] v[t]).2 == j;
        assert(nrank[v[ti].2 as int] == dense(v, ti));
        assert(nrank[v[tj].2 as int] == dense(v, tj));
        assert(v[ti] == key_triple(rank, k, i));
        assert(v[tj] == key_triple(rank, k, j));
        lemma_doubling(s, k, rank, i, j);
        if ti <= tj {
            lemma_dense_order(v, ti, tj);
            if ti < tj {
                assert(v[ti] == v[ti] && v[tj] == v[tj]);
            }
        } else {
            lemma_dense_order(v, tj, ti);
            assert(v[ti] == v[ti] && v[tj] == v[tj]);
        }
    }
}

/// The positions in `sa` come in the order of the first `k` entries of their suffixes.
pub open spec fn sa_sorted(s: Seq<usize>, k: int, sa: Seq<usize>) -> bool {
    forall|a: int, b: int| 0 <= a < b < sa.len() ==> lex(pre(s, k, #[trigger] sa[a] as int), pre(s, k, #[trigger] sa[b] as int)) <= 0
}

/// The initial ranks: the characters, with `-1` for the end.
proof fn lemma_initial_ranks(s: Seq<usize>, rank: Seq<i64>)
    requires
        rank.len() == s.len() + 1,
        forall|i: int| 0 <= i <= s.len() ==> #[trigger] rank[i] as int == ext(s, i),
    ensures
        rank_ok(s, 1, rank),
{
    assert forall|i: int, j: int|
        0 <= i <= s.len() && 0 <= j <= s.len() implies sign(#[trigger] rank[i] as int, #[trigger] rank[j] as int) == lex(
        pre(s, 1, i),
        pre(s, 1, j),
    ) by {
        let a = pre(s, 1, i);
        let b = pre(s, 1, j);
        assert(a.len() == 1 && b.len() == 1);
        assert(a[0] == ext(s, i) && b[0] == ext(s, j));
        assert(a.drop_first().len() == 0 && b.drop_first().len() == 0);
        assert(lex(a.drop_first(), b.drop_first()) == 0);
        assert(rank[i] as int == ext(s, i) && rank[j] as int == ext(s, j));
    }
}

/// The suffix array of `s`: the starting positions of its suffixes in dictionary order.
pub fn construct_sa(s: &Vec<usize>) -> (r: Vec<usize>)
    requires
        s@.len() < usize::MAX / 4,
        forall|i: int| 0 <= i < s@.len() ==> #[trigger] s@[i] < i64::MAX,
    ensures
        r@.len() == s@.len(),
        forall|t: int| 0 <= t < r@.len() ==> #[trigger] r@[t] < s@.len(),
        forall|a: int, b: int| 0 <= a < b < r@.len() ==> suffix_before(s@, #[trigger] r@[a] as int, #[trigger] r@[b] as int),
{
    let n = s.len();
    let mut sa: Vec<usize> = Vec::new();
    let mut rank: Vec<i64> = Vec::new();
    for i in 0..n + 1
        invariant
            n == s@.len(),
            n < usize::MAX / 4,
            forall|j: int| 0 <= j < n ==> #[trigger] s@[j] < i64::MAX,
            sa@.len() == i,
            rank@.len() == i,
            forall|j: int| 0 <= j < i ==> #[trigger] sa@[j] == j,
            forall|j: int| 0 <= j < i ==> #[trigger] rank@[j] as int == ext(s@, j),
    {
        sa.push(i);
        if i < n {
            rank.push(s[i] as i64);
        } else {
            rank.push(-1);
        }
    }
    proof {
        lemma_initial_ranks(s@, rank@);
    }
    let mut nrank: Vec<i64> = Vec::new();
    for i in 0..n + 1
        invariant
            nrank@.len() == i,
    {
        nrank.push(0);
    }
    let mut k: usize = 1;
    while k <= n
        invariant
            n == s@.len(),
            n < usize::MAX / 4,
            1 <= k <= 2 * n || (n == 0 && k == 1),
            rank_ok(s@, k as int, rank@),
            nrank@.len() == n + 1,
            sa@.len() == n + 1,
            forall|t: int| 0 <= t <= n ==> #[trigger] sa@[t] <= n,
            forall|a: int, b: int| 0 <= a < b <= n ==> #[trigger] sa@[a] != #[trigger] sa@[b],
            k > 1 ==> sa_sorted(s@, k as int, sa@),
        decreases 2 * n + 1 - k,
    {
        let mut v: Vec<(i64, i64, usize)> = Vec::new();
        for i in 0..n + 1
            invariant
                n == s@.len(),
                n < usize::MAX / 4,
                k <= n,
                rank@.len() == n + 1,
                v@.len() == i,
                forall|j: int| 0 <= j < i ==> #[trigger] v@[j] == key_triple(rank@, k as int, j),
        {
            let second = if i + k <= n {
                rank[i + k]
            } else {
                0
            };
            v.push((rank[i], second, i));
        }
        let ghost v0 = v@;
        sort_keys(&mut v);
        proof {
            lemma_sorted_keyed(v0, v@, rank@, k as int);
        }
        for t in 0..n + 1
            invariant
                n == s@.len(),
                v@.len() == n + 1,
                sa@.len() == n + 1,
                forall|u: int| 0 <= u < t ==> #[trigger] sa@[u] == v@[u].2,
        {
            sa.set(t, v[t].2);
        }
        nrank.set(v[0].2, 0);
        for t in 1..n + 1
            invariant
                n == s@.len(),
                n < usize::MAX / 4,
                v@.len() == n + 1,
                rank@.len() == n + 1,
                nrank@.len() == n + 1,
                triples_sorted(v@),
                keyed_perm(v@, rank@, k as int),
                forall|u: int| 0 <= u < t ==> #[trigger] nrank@[v@[u].2 as int] == dense(v@, u),
                forall|u: int| 0 <= u < t ==> dense(v@, u) <= u,
        {
            let a = v[t - 1];
            let b = v[t];
            let inc: i64 = if a.0 != b.0 || a.1 != b.1 {
                1
            } else {
                0
            };
            let prev = nrank[a.2];
            proof {
                assert(nrank@[v@[t - 1].2 as int] == dense(v@, t - 1));
            }
            let ghost before = nrank@;
            nrank.set(b.2, prev + inc);
            proof {
                assert forall|u: int| 0 <= u < t + 1 implies #[trigger] nrank@[v@[u].2 as int] == dense(v@, u) by {
                    if u < t {
                        assert(v@[u].2 != v@[t as int].2);
                        assert(nrank@[v@[u].2 as int] == before[v@[u].2 as int]);
                    }
                }
            }
        }
        proof {
            lemma_new_ranks(s@, k as int, rank@, v@, nrank@);
            assert forall|a: int, b: int| 0 <= a < b < sa@.len() implies lex(pre(s@, 2 * k, #[trigger] sa@[a] as int), pre(s@, 2 * k, #[trigger] sa@[b] as int)) <= 0 by {
                assert(sa@[a] == v@[a].2 && sa@[b] == v@[b].2);
                assert(v@[a] == key_triple(rank@, k as int, v@[a].2 as int));
                assert(v@[b] == key_triple(rank@, k as int, v@[b].2 as int));
                lemma_doubling(s@, k as int, rank@, sa@[a] as int, sa@[b] as int);
            }
            assert forall|t: int| 0 <= t <= n implies #[trigger] sa@[t] <= n by {
                assert(sa@[t] == v@[t].2);
            }
            assert forall|a: int, b: int| 0 <= a < b <= n implies #[trigger] sa@[a] != #[trigger] sa@[b] by {
                assert(sa@[a] == v@[a].2 && sa@[b] == v@[b].2);
            }
        }
        std::mem::swap(&mut rank, &mut nrank);
        k = k * 2;
    }
    let mut r: Vec<usize> = Vec::new();
    for t in 1..n + 1
        invariant
            sa@.len() == n + 1,
            r@.len() == t - 1,
            forall|u: int| 0 <= u < t - 1 ==> #[trigger] r@[u] == sa@[u + 1],
    {
        r.push(sa[t]);
    }
    proof {
        lemma_final_order(s@, k as int, sa@, r@);
    }
    r
}

/// The suffix of the end mark alone comes first, so the array past its first entry lists the
/// suffixes of `s` in strictly increasing order.
proof fn lemma_final_order(s: Seq<usize>, k: int, sa: Seq<usize>, r: Seq<usize>)
    requires
        k > s.len(),
        sa.len() == s.len() + 1,
        forall|t: int| 0 <= t <= s.len() ==> #[trigger] sa[t] <= s.len(),
        forall|a: int, b: int| 0 <= a < b <= s.len() ==> #[trigger] sa[a] != #[trigger] sa[b],
        s.len() > 0 ==> sa_sorted(s, k, sa),
        r.len() == s.len(),
        forall|u: int| 0 <= u < r.len() ==> #[trigger] r[u] == sa[u + 1],
    ensures
        forall|t: int| 0 <= t < r.len() ==> #[trigger] r[t] < s.len(),
        forall|a: int, b: int| 0 <= a < b < r.len() ==> suffix_before(s, #[trigger] r[a] as int, #[trigger] r[b] as int),
{
    let n = s.len() as int;
    if n > 0 {
        assert forall|i: int| 0 <= i <= n implies pre(s, k, i) == sfx(s, i) by {
            assert(pre(s, k, i) =~= sfx(s, i));
        }
        assert forall|a: int, b: int| 0 <= a < b <= n implies lex(sfx(s, sa[a] as int), sfx(s, sa[b] as int)) < 0 by {
            assert(lex(pre(s, k, sa[a] as int), pre(s, k, sa[b] as int)) <= 0);
            lemma_lex_zero(sfx(s, sa[a] as int), sfx(s, sa[b] as int));
            assert(sfx(s, sa[a] as int).len() != sfx(s, sa[b] as int).len());
        }
        if sa[0] != n {
            assert(sa[0] < n);
            let x = sa[0] as int;
            assert(sfx(s, n).len() == 1 && sfx(s, n)[0] == -1);
            assert(sfx(s, x)[0] == s[x] as int);
            let m = choose|m: int| 0 <= m <= n && sa[m] == n;
        }
    }
}

/// Sequences whose suffix array can be built.
pub trait ToSuffixArray {
    /// The input fits the construction: not too long, characters below `i64::MAX`.
    spec fn suffix_array_input_ok(&self) -> bool;

    /// The starting positions of the suffixes in dictionary order.
    fn to_suffix_array(&self) -> Vec<usize>
        requires
            self.suffix_array_input_ok(),
    ;
}

impl ToSuffixArray for Vec<usize> {
    open spec fn suffix_array_input_ok(&self) -> bool {
        &&& self@.len() < usize::MAX / 4
        &&& forall|i: int| 0 <= i < self@.len() ==> #[trigger] self@[i] < i64::MAX
    }

    fn to_suffix_array(&self) -> (r: Vec<usize>)
        ensures
            r@.len() == self@.len(),
            forall|t: int| 0 <= t < r@.len() ==> #[trigger] r@[t] < self@.len(),
            forall|a: int, b: int|
                0 <= a < b < r@.len() ==> suffix_before(self@, #[trigger] r@[a] as int, #[trigger] r@[b] as int),
    {
        construct_sa(self)
    }
}

} // verus!
