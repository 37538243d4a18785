//! Convex hull of integer points `(y, x)` by the monotone chain method, keeping the points on
//! the vertical sides of the hull.
use vstd::prelude::*;
use std::collections::{BTreeMap, BTreeSet, VecDeque};
use vstd::std_specs::iter::IteratorSpec;
use vstd::std_specs::cmp::OrdSpec;
use crate::rational::{Rational, normalize, abs, lemma_normalize_bound, lemma_normalize_value};
use crate::ordering::{sort_vec, sorted, reverse_vec};

verus! {

/// A coordinate small enough for exact slope comparisons.
pub open spec fn coord_ok(v: int) -> bool {
    -0x4000_0000 <= v <= 0x4000_0000
}

/// The slope from `b` to `c` is below the slope from `a` to `c` (slopes as normalized fractions
/// `dy / dx` compared by cross multiplication).
pub open spec fn slope_lt(a: (i64, i64), b: (i64, i64), c: (i64, i64)) -> bool {
    let t0 = normalize(b.0 - c.0, b.1 - c.1);
    let t1 = normalize(a.0 - c.0, a.1 - c.1);
    t0.0 * t1.1 < t0.1 * t1.0
}

/// `a` comes before `b` in the sweep direction.
pub open spec fn before(a: i64, b: i64, up: bool) -> bool {
    if up {
        a < b
    } else {
        a > b
    }
}

/// The columns are listed in strictly monotone order of `x`, each non-empty and with small
/// coordinates.
pub open spec fn columns_ok(s: Seq<(i64, Vec<i64>)>, up: bool) -> bool {
    &&& forall|i: int, j: int| 0 <= i < j < s.len() ==> before(#[trigger] s[i].0, #[trigger] s[j].0, up)
    &&& forall|i: int| 0 <= i < s.len() ==> (#[trigger] s[i]).1@.len() >= 1 && coord_ok(s[i].0 as int)
    &&& forall|i: int, k: int| 0 <= i < s.len() && 0 <= k < s[i].1@.len() ==> coord_ok(#[trigger] s[i].1@[k] as int)
}

/// The head point of column `i`: its first `y`.
pub open spec fn head(s: Seq<(i64, Vec<i64>)>, i: int) -> (i64, i64) {
    (s[i].1@[0], s[i].0)
}

/// Point `p` is a point of one of the columns.
pub open spec fn from_columns(p: (i64, i64), s: Seq<(i64, Vec<i64>)>) -> bool {
    exists|i: int| 0 <= i < s.len() && p.1 == s[i].0 && (#[trigger] s[i].1@).contains(p.0)
}

/// `c` is a chain of head points of the first `n` columns, in sweep order, turning weakly
/// convexly at every inner point.
pub open spec fn chain_ok(c: Seq<(i64, i64)>, s: Seq<(i64, Vec<i64>)>, n: int, up: bool) -> bool {
    &&& forall|k: int| 0 <= k < c.len() ==> exists|j: int| 0 <= j < n && #[trigger] c[k] == head(s, j)
    &&& forall|k: int, l: int| 0 <= k < l < c.len() ==> before(#[trigger] c[k].1, #[trigger] c[l].1, up)
    &&& forall|k: int| 0 <= k && k + 2 < c.len() ==> !slope_lt(#[trigger] c[k], c[k + 1], c[k + 2])
}

/// `p` lies strictly on the outer side of the segment from `a` to `b`: below it when the
/// sweep goes towards larger `x`, above it when it goes towards smaller `x`.
pub open spec fn outside(a: (i64, i64), b: (i64, i64), p: (i64, i64)) -> bool {
    (b.1 - a.1) * (p.0 - a.0) < (b.0 - a.0) * (p.1 - a.1)
}

/// The `x` of `p` lies between those of `a` and `b` (inclusive), in sweep order.
pub open spec fn between(a: (i64, i64), b: (i64, i64), p: (i64, i64), up: bool) -> bool {
    !before(p.1, a.1, up) && !before(b.1, p.1, up)
}

/// No head of the first `n` columns lies on the outer side of a segment of the chain `c`
/// over its `x`.
pub open spec fn inner_ok(c: Seq<(i64, i64)>, s: Seq<(i64, Vec<i64>)>, n: int, up: bool) -> bool {
    forall|j: int, k: int|
        0 <= j < n && 0 <= k && k + 1 < c.len() && between(c[k], c[k + 1], #[trigger] head(s, j), up) ==> !outside(
            #[trigger] c[k],
            c[k + 1],
            head(s, j),
        )
}

/// A normalized fraction keeps the value: `t.0 / t.1 == num / den`, with `t.1 >= 1`.
proof fn lemma_normalize_ratio(num: int, den: int)
    requires
        den != 0,
    ensures
        normalize(num, den).0 * den == num * normalize(num, den).1,
        normalize(num, den).1 >= 1,
{
    lemma_normalize_bound(num, den);
    if num != 0 {
        lemma_normalize_value(num, den);
    } else {
        assert(normalize(num, den) == (0int, 1int));
        assert(0 * den == 0 * 1) by (nonlinear_arith);
    }
}

/// For `a`, `b`, `q` in sweep order, the popping test `slope_lt(a, b, q)` holds exactly when
/// `b` lies strictly on the inner side of the segment from `a` to `q`.
proof fn lemma_slope_inner(a: (i64, i64), b: (i64, i64), q: (i64, i64))
    requires
        (a.1 - q.1) * (b.1 - q.1) > 0,
    ensures
        slope_lt(a, b, q) <==> (q.1 - a.1) * (b.0 - a.0) > (q.0 - a.0) * (b.1 - a.1),
{
    let bn = b.0 - q.0;
    let bd = b.1 - q.1;
    let an = a.0 - q.0;
    let ad = a.1 - q.1;
    let t0 = normalize(bn, bd);
    let t1 = normalize(an, ad);
    lemma_normalize_ratio(bn, bd);
    lemma_normalize_ratio(an, ad);
    // both sides of the comparison, scaled by the positive bd * ad * t0.1 * t1.1
    assert((t0.0 * t1.1) * (bd * ad) == (bn * ad) * (t0.1 * t1.1)) by (nonlinear_arith)
        requires
            t0.0 * bd == bn * t0.1,
    ;
    assert((t0.1 * t1.0) * (bd * ad) == (an * bd) * (t0.1 * t1.1)) by (nonlinear_arith)
        requires
            t1.0 * ad == an * t1.1,
    ;
    assert(t0.1 * t1.1 > 0) by (nonlinear_arith)
        requires
            t0.1 >= 1,
            t1.1 >= 1,
    ;
    assert(bd * ad > 0);
    assert((t0.0 * t1.1 < t0.1 * t1.0) <==> (bn * ad < an * bd)) by (nonlinear_arith)
        requires
            (t0.0 * t1.1) * (bd * ad) == (bn * ad) * (t0.1 * t1.1),
            (t0.1 * t1.0) * (bd * ad) == (an * bd) * (t0.1 * t1.1),
            t0.1 * t1.1 > 0,
            bd * ad > 0,
    ;
    assert(((q.1 - a.1) * (b.0 - a.0) > (q.0 - a.0) * (b.1 - a.1)) <==> (bn * ad < an * bd)) by (nonlinear_arith)
        requires
            bn == b.0 - q.0,
            bd == b.1 - q.1,
            an == a.0 - q.0,
            ad == a.1 - q.1,
    ;
}

/// If `b` lies strictly inside the segment `a`-`q`, a point over `[a, b]` not outside `a`-`b`
/// is not outside `a`-`q`.
proof fn lemma_inside_left(a: (i64, i64), b: (i64, i64), q: (i64, i64), p: (i64, i64), up: bool)
    requires
        before(a.1, b.1, up),
        before(b.1, q.1, up),
        (q.1 - a.1) * (b.0 - a.0) > (q.0 - a.0) * (b.1 - a.1),
        between(a, b, p, up),
        !outside(a, b, p),
    ensures
        !outside(a, q, p),
{
    let (ux, uy) = (b.1 - a.1, b.0 - a.0);
    let (vx, vy) = (q.1 - a.1, q.0 - a.0);
    let (wx, wy) = (p.1 - a.1, p.0 - a.0);
    if up {
        assert(vx * wy >= vy * wx) by (nonlinear_arith)
            requires
                ux > 0,
                vx > ux,
                0 <= wx <= ux,
                ux * wy >= uy * wx,
                vx * uy > vy * ux,
        ;
    } else {
        assert(vx * wy >= vy * wx) by (nonlinear_arith)
            requires
                ux < 0,
                vx < ux,
                ux <= wx <= 0,
                ux * wy >= uy * wx,
                vx * uy > vy * ux,
        ;
    }
}

/// If `b` lies strictly inside the segment `a`-`q`, a point over `[b, q]` not outside `b`-`q`
/// is not outside `a`-`q`.
proof fn lemma_inside_right(a: (i64, i64), b: (i64, i64), q: (i64, i64), p: (i64, i64), up: bool)
    requires
        before(a.1, b.1, up),
        before(b.1, q.1, up),
        (q.1 - a.1) * (b.0 - a.0) > (q.0 - a.0) * (b.1 - a.1),
        between(b, q, p, up),
        !outside(b, q, p),
    ensures
        !outside(a, q, p),
{
    // coordinates relative to q
    let (ux, uy) = (a.1 - q.1, a.0 - q.0);
    let (bx, by) = (b.1 - q.1, b.0 - q.0);
    let (wx, wy) = (p.1 - q.1, p.0 - q.0);
    assert(ux * by < uy * bx) by (nonlinear_arith)
        requires
            (q.1 - a.1) * (b.0 - a.0) > (q.0 - a.0) * (b.1 - a.1),
            ux == a.1 - q.1,
            uy == a.0 - q.0,
            bx == b.1 - q.1,
            by == b.0 - q.0,
    ;
    assert(bx * wy <= by * wx) by (nonlinear_arith)
        requires
            !((q.1 - b.1) * (p.0 - b.0) < (q.0 - b.0) * (p.1 - b.1)),
            bx == b.1 - q.1,
            by == b.0 - q.0,
            wx == p.1 - q.1,
            wy == p.0 - q.0,
    ;
    if up {
        assert(ux * wy <= uy * wx) by (nonlinear_arith)
            requires
                ux < bx,
                bx < 0,
                bx <= wx <= 0,
                ux * by < uy * bx,
                bx * wy <= by * wx,
        ;
    } else {
        assert(ux * wy <= uy * wx) by (nonlinear_arith)
            requires
                ux > bx,
                bx > 0,
                0 <= wx <= bx,
                ux * by < uy * bx,
                bx * wy <= by * wx,
        ;
    }
    assert(!outside(a, q, p)) by (nonlinear_arith)
        requires
            ux * wy <= uy * wx,
            ux == a.1 - q.1,
            uy == a.0 - q.0,
            wx == p.1 - q.1,
            wy == p.0 - q.0,
    ;
}

/// The chain ends at the previous head, so the only earlier head over `[last, q]` is the last
/// point itself, which is not outside.
proof fn lemma_last_inner(s: Seq<(i64, Vec<i64>)>, start: Seq<(i64, i64)>, idx: int, up: bool, q: (i64, i64))
    requires
        columns_ok(s, up),
        1 <= idx < s.len(),
        start.len() >= 1,
        start.last() == head(s, idx - 1),
    ensures
        forall|j: int| 0 <= j < idx && between(start.last(), q, #[trigger] head(s, j), up) ==> !outside(
            start.last(),
            q,
            head(s, j),
        ),
{
    assert forall|j: int| 0 <= j < idx && between(start.last(), q, #[trigger] head(s, j), up) implies !outside(
        start.last(),
        q,
        head(s, j),
    ) by {
        if j < idx - 1 {
            assert(before(s[j].0, s[idx - 1].0, up));
        }
        let p = head(s, j);
        assert((q.1 - p.1) * (p.0 - p.0) == 0 && (q.0 - p.0) * (p.1 - p.1) == 0) by (nonlinear_arith);
    }
}

/// Appending the new head `q` to the kept prefix keeps every head on the inner side.
proof fn lemma_push_inner(s: Seq<(i64, Vec<i64>)>, start: Seq<(i64, i64)>, kept: Seq<(i64, i64)>, idx: int, up: bool, q: (i64, i64))
    requires
        columns_ok(s, up),
        0 <= idx < s.len(),
        q == head(s, idx),
        chain_ok(start, s, idx, up),
        inner_ok(start, s, idx, up),
        1 <= kept.len() <= start.len(),
        kept == start.subrange(0, kept.len() as int),
        forall|j: int| 0 <= j < idx && between(kept.last(), q, #[trigger] head(s, j), up) ==> !outside(
            kept.last(),
            q,
            head(s, j),
        ),
    ensures
        inner_ok(kept.push(q), s, idx + 1, up),
{
    let c = kept.push(q);
    assert forall|j: int, k: int|
        0 <= j < idx + 1 && 0 <= k && k + 1 < c.len() && between(c[k], c[k + 1], #[trigger] head(s, j), up) implies !outside(
            #[trigger] c[k],
            c[k + 1],
            head(s, j),
        ) by {
        if k + 1 < kept.len() {
            assert(c[k] == start[k] && c[k + 1] == start[k + 1]);
            if j == idx {
                let jj = choose|jj: int| 0 <= jj < idx && #[trigger] start[k + 1] == head(s, jj);
                assert(before(s[jj].0, s[idx].0, up));
            }
        } else {
            assert(c[k] == kept.last() && c[k + 1] == q);
            if j == idx {
                let p = head(s, j);
                let a = c[k];
                assert((p.1 - a.1) * (p.0 - a.0) == (p.0 - a.0) * (p.1 - a.1)) by (nonlinear_arith);
            }
        }
    }
}

/// Appending the new head `q` to the kept prefix of the chain, after the popping stopped,
/// gives a chain over one more column.
proof fn lemma_push_chain(s: Seq<(i64, Vec<i64>)>, start: Seq<(i64, i64)>, kept: Seq<(i64, i64)>, idx: int, up: bool, q: (i64, i64))
    requires
        columns_ok(s, up),
        0 <= idx < s.len(),
        q == head(s, idx),
        chain_ok(start, s, idx, up),
        1 <= kept.len() <= start.len(),
        kept == start.subrange(0, kept.len() as int),
        kept.len() >= 2 ==> !slope_lt(kept[kept.len() - 2], kept[kept.len() - 1], q),
    ensures
        chain_ok(kept.push(q), s, idx + 1, up),
{
    let c = kept.push(q);
    assert forall|k: int| 0 <= k < c.len() implies exists|j: int| 0 <= j < idx + 1 && #[trigger] c[k] == head(s, j) by {
        if k < kept.len() {
            assert(c[k] == start[k]);
        } else {
            assert(c[k] == head(s, idx));
        }
    }
    assert forall|k: int, l: int| 0 <= k < l < c.len() implies before(#[trigger] c[k].1, #[trigger] c[l].1, up) by {
        if l == c.len() - 1 {
            assert(c[k] == start[k]);
            let j = choose|j: int| 0 <= j < idx && #[trigger] start[k] == head(s, j);
            assert(before(s[j].0, s[idx].0, up));
        } else {
            assert(c[k] == start[k] && c[l] == start[l]);
        }
    }
    assert forall|k: int| 0 <= k && k + 2 < c.len() implies !slope_lt(#[trigger] c[k], c[k + 1], c[k + 2]) by {
        if k + 2 < kept.len() {
            assert(c[k] == start[k] && c[k + 1] == start[k + 1] && c[k + 2] == start[k + 2]);
        } else {
            assert(c[k] == kept[k] && c[k + 1] == kept[k + 1]);
        }
    }
}

/// Popping the last point `b` of the chain when `slope_lt(a, b, q)`: every head that was not
/// outside `b`-`q` over its `x` is not outside `a`-`q` either.
proof fn lemma_pop_keeps_inner(s: Seq<(i64, Vec<i64>)>, start: Seq<(i64, i64)>, len: int, idx: int, up: bool, q: (i64, i64))
    requires
        columns_ok(s, up),
        0 <= idx < s.len(),
        q == head(s, idx),
        chain_ok(start, s, idx, up),
        inner_ok(start, s, idx, up),
        2 <= len <= start.len(),
        slope_lt(start[len - 2], start[len - 1], q),
        forall|j: int| 0 <= j < idx && between(start[len - 1], q, #[trigger] head(s, j), up) ==> !outside(
            start[len - 1],
            q,
            head(s, j),
        ),
    ensures
        forall|j: int| 0 <= j < idx && between(start[len - 2], q, #[trigger] head(s, j), up) ==> !outside(
            start[len - 2],
            q,
            head(s, j),
        ),
{
    let a = start[len - 2];
    let b = start[len - 1];
    let ja = choose|j: int| 0 <= j < idx && #[trigger] start[len - 2] == head(s, j);
    let jb = choose|j: int| 0 <= j < idx && #[trigger] start[len - 1] == head(s, j);
    assert(before(a.1, b.1, up));
    assert(before(s[ja].0, s[idx].0, up) && before(s[jb].0, s[idx].0, up));
    assert(before(a.1, q.1, up) && before(b.1, q.1, up));
    assert((a.1 - q.1) * (b.1 - q.1) > 0) by (nonlinear_arith)
        requires
            (a.1 < q.1 && b.1 < q.1) || (a.1 > q.1 && b.1 > q.1),
    ;
    lemma_slope_inner(a, b, q);
    assert forall|j: int| 0 <= j < idx && between(a, q, #[trigger] head(s, j), up) implies !outside(a, q, head(s, j)) by {
        let p = head(s, j);
        if between(a, b, p, up) {
            assert(!outside(start[len - 2], start[len - 2 + 1], head(s, j)));
            lemma_inside_left(a, b, q, p, up);
        } else {
            assert(between(b, q, p, up));
            lemma_inside_right(a, b, q, p, up);
        }
    }
}

/// Whether slope `(b - c)` is below slope `(a - c)`, computed.
fn slope_lt_exec(a: (i64, i64), b: (i64, i64), c: (i64, i64)) -> (r: bool)
    requires
        coord_ok(a.0 as int),
        coord_ok(a.1 as int),
        coord_ok(b.0 as int),
        coord_ok(b.1 as int),
        coord_ok(c.0 as int),
        coord_ok(c.1 as int),
        b.1 != c.1,
        a.1 != c.1,
    ensures
        r == slope_lt(a, b, c),
{
    let t0 = Rational::new(b.0 - c.0, b.1 - c.1);
    let t1 = Rational::new(a.0 - c.0, a.1 - c.1);
    proof {
        lemma_normalize_bound((b.0 - c.0) as int, (b.1 - c.1) as int);
        lemma_normalize_bound((a.0 - c.0) as int, (a.1 - c.1) as int);
        lemma_small_product(t0.num as int, t1.denom as int);
        lemma_small_product(t0.denom as int, t1.num as int);
    }
    t0.lt(&t1)
}

/// Products of numbers of magnitude at most `2^31` fit in an `i64`.
proof fn lemma_small_product(a: int, b: int)
    requires
        abs(a) <= 0x8000_0000,
        abs(b) <= 0x8000_0000,
    ensures
        i64::MIN <= a * b <= i64::MAX,
{
    assert(abs(a * b) <= 0x8000_0000 * 0x8000_0000) by (nonlinear_arith)
        requires
            abs(a) <= 0x8000_0000,
            abs(b) <= 0x8000_0000,
    ;
}

/// What the monotone chain construction gives for non-empty columns `s`: the remaining points
/// of the first column (in reverse), the chain over the heads, which turns weakly convexly and
/// keeps every head on its inner side, then the remaining points of the last column.
pub open spec fn tangents_ok(vs: Seq<(i64, i64)>, s: Seq<(i64, Vec<i64>)>) -> bool {
    let n = s.len() as int;
    let f = s[0].1@.len() - 1;
    let b = s[n - 1].1@.len() - 1;
    &&& vs.len() >= f + b + 1
    &&& forall|k: int| 0 <= k < f ==> #[trigger] vs[k] == (s[0].1@[f - k], s[0].0)
    &&& forall|k: int| 0 <= k < b ==> #[trigger] vs[vs.len() - b + k] == (s[n - 1].1@[1 + k], s[n - 1].0)
    &&& vs[f] == head(s, 0)
    &&& vs[vs.len() - b - 1] == head(s, n - 1)
    &&& forall|up: bool| columns_ok(s, up) ==> chain_ok(#[trigger] vs.subrange(f, vs.len() - b), s, n, up)
    &&& forall|up: bool| columns_ok(s, up) ==> #[trigger] inner_ok(vs.subrange(f, vs.len() - b), s, n, up)
}

/// The monotone chain over the head points of the columns, followed by the remaining points
/// of the last column and preceded (in reverse) by the remaining points of the first column.
#[verifier::spinoff_prover]
#[verifier::rlimit(100)]
fn weakly_monotone_tangents(x_ys: &Vec<(i64, Vec<i64>)>) -> (vs: VecDeque<(i64, i64)>)
    requires
        columns_ok(x_ys@, true) || columns_ok(x_ys@, false),
    ensures
        x_ys@.len() == 0 ==> vs@.len() == 0,
        forall|k: int| 0 <= k < vs@.len() ==> from_columns(#[trigger] vs@[k], x_ys@),
        x_ys@.len() > 0 ==> tangents_ok(vs@, x_ys@),
{
    let ghost s = x_ys@;
    let ghost up = columns_ok(s, true);
    let n = x_ys.len();
    let mut vs: VecDeque<(i64, i64)> = VecDeque::new();
    for idx in 0..n
        invariant
            s == x_ys@,
            n == s.len(),
            columns_ok(s, up),
            up == columns_ok(s, true),
            idx > 0 ==> vs@.len() >= 1 && vs@[0] == head(s, 0) && vs@[vs@.len() - 1] == head(s, idx - 1),
            idx == 0 ==> vs@.len() == 0,
            chain_ok(vs@, s, idx as int, up),
            inner_ok(vs@, s, idx as int, up),
    {
        let x = x_ys[idx].0;
        let y = x_ys[idx].1[0];
        assert((y, x) == head(s, idx as int));
        if vs.len() == 0 {
            vs.push_back((y, x));
            assert(vs@[0] == head(s, 0));
        } else {
            let ghost start = vs@;
            let ghost q = (y, x);
            proof {
                lemma_last_inner(s, start, idx as int, up, q);
            }
            let mut stop = false;
            while vs.len() >= 2 && !stop
                invariant
                    s == x_ys@,
                    columns_ok(s, up),
                    idx < n == s.len(),
                    (y, x) == head(s, idx as int),
                    vs@.len() >= 1,
                    vs@[0] == head(s, 0),
                    vs@.len() <= start.len(),
                    vs@ == start.subrange(0, vs@.len() as int),
                    chain_ok(start, s, idx as int, up),
                    inner_ok(start, s, idx as int, up),
                    q == (y, x),
                    forall|j: int| 0 <= j < idx && between(vs@.last(), q, #[trigger] head(s, j), up) ==> !outside(
                        vs@.last(),
                        q,
                        head(s, j),
                    ),
                    stop ==> vs@.len() >= 2 && !slope_lt(vs@[vs@.len() - 2], vs@[vs@.len() - 1], (y, x)),
                decreases vs@.len() + if stop { 0int } else { 1int },
            {
                let len = vs.len();
                let b = vs[len - 1];
                let a = vs[len - 2];
                proof {
                    assert(vs@[len - 1] == start[len - 1]);
                    assert(vs@[len - 2] == start[len - 2]);
                    let ja = choose|j: int| 0 <= j < idx && start[len - 2] == head(s, j);
                    let jb = choose|j: int| 0 <= j < idx && start[len - 1] == head(s, j);
                    assert(before(s[ja].0, s[idx as int].0, up));
                    assert(before(s[jb].0, s[idx as int].0, up));
                    assert(s[ja].1@.len() >= 1 && s[jb].1@.len() >= 1);
                    assert(coord_ok(s[ja].1@[0] as int) && coord_ok(s[jb].1@[0] as int));
                    assert(coord_ok(s[idx as int].1@[0] as int));
                }
                if slope_lt_exec(a, b, (y, x)) {
                    let ghost old_vs = vs@;
                    vs.pop_back();
                    assert(vs@ == start.subrange(0, vs@.len() as int));
                    proof {
                        assert(vs@.last() == a);
                        assert(old_vs.last() == b);
                        lemma_pop_keeps_inner(s, start, len as int, idx as int, up, q);
                    }
                } else {
                    stop = true;
                }
            }
            let ghost kept = vs@;
            vs.push_back((y, x));
            proof {
                assert(vs@ == kept.push((y, x)));
                lemma_push_inner(s, start, kept, idx as int, up, q);
                lemma_push_chain(s, start, kept, idx as int, up, q);
            }
        }
    }
    let ghost chain = vs@;
    if n > 0 {
        let last = &x_ys[n - 1];
        let x = last.0;
        for k in 1..last.1.len()
            invariant
                s == x_ys@,
                n == s.len(),
                n > 0,
                last == &x_ys@[n - 1],
                x == last.0,
                vs@.len() == chain.len() + (k - 1),
                vs@.subrange(0, chain.len() as int) == chain,
                forall|i: int| 0 <= i < k - 1 ==> #[trigger] vs@[chain.len() + i] == (last.1@[1 + i], x),
        {
            let y = last.1[k];
            let ghost before_push = vs@;
            vs.push_back((y, x));
            assert(vs@.subrange(0, chain.len() as int) =~= before_push.subrange(0, chain.len() as int));
        }
        let ghost with_back = vs@;
        let first = &x_ys[0];
        let x0 = first.0;
        for k in 1..first.1.len()
            invariant
                s == x_ys@,
                n == s.len(),
                n > 0,
                first == &x_ys@[0],
                x0 == first.0,
                vs@.len() == with_back.len() + (k - 1),
                vs@.subrange(k - 1, vs@.len() as int) == with_back,
                forall|i: int| 0 <= i < k - 1 ==> #[trigger] vs@[i] == (first.1@[k - 1 - i], x0),
        {
            let y = first.1[k];
            let ghost before_push = vs@;
            vs.push_front((y, x0));
            assert(vs@.subrange(k as int, vs@.len() as int) == with_back) by {
                assert(vs@.subrange(k as int, vs@.len() as int) == before_push.subrange(k - 1, before_push.len() as int));
            }
        }
        proof {
            let f = s[0].1@.len() - 1;
            let b = s[n - 1].1@.len() - 1;
            assert(vs@.subrange(f, vs@.len() - b) == chain) by {
                assert(vs@.subrange(f, vs@.len() as int) == with_back);
                assert(with_back.subrange(0, chain.len() as int) == chain);
            }
            assert forall|k: int| 0 <= k < b implies #[trigger] vs@[vs@.len() - b + k] == (s[n - 1].1@[1 + k], s[n - 1].0) by {
                assert(vs@.subrange(f, vs@.len() as int)[vs@.len() - b + k - f] == vs@[vs@.len() - b + k]);
                assert(vs@[vs@.len() - b + k] == with_back[chain.len() + k]);
            }
            assert(vs@[f] == with_back[0]);
            assert(with_back[0] == chain[0]);
            assert(vs@[vs@.len() - b - 1] == with_back[chain.len() - 1]);
            assert(with_back[chain.len() - 1] == chain[chain.len() - 1]);
            assert(columns_ok(s, true) ==> up);
            assert forall|k: int| 0 <= k < vs@.len() implies from_columns(#[trigger] vs@[k], s) by {
                if k < f {
                    assert(s[0].1@[f - k] == vs@[k].0);
                } else if k >= vs@.len() - b {
                    let kk = k - (vs@.len() - b);
                    assert(vs@.subrange(f, vs@.len() as int)[k - f] == vs@[k]);
                    assert(with_back[chain.len() + kk] == vs@[k]);
                    assert(s[n - 1].1@[1 + kk] == vs@[k].0);
                } else {
                    assert(vs@[k] == chain[k - f]);
                    let j = choose|j: int| 0 <= j < n && chain[k - f] == head(s, j);
                    assert(s[j].1@[0] == vs@[k].0);
                }
            }
        }
    }
    vs
}

/// The points of the hull.
pub struct ConvexHull {
    x_ys: BTreeMap<i64, Vec<i64>>,
}

impl ConvexHull {
    /// The points, as their columns: `x` to the `y`s added with that `x`.
    pub closed spec fn columns(&self) -> Map<i64, Seq<i64>> {
        self.x_ys@.map_values(|v: Vec<i64>| v@)
    }

    /// Every column is non-empty and every coordinate small.
    pub closed spec fn well_formed(&self) -> bool {
        forall|x: i64| #[trigger] self.x_ys@.contains_key(x) ==> self.x_ys@[x]@.len() >= 1 && coord_ok(x as int)
            && forall|k: int| 0 <= k < self.x_ys@[x]@.len() ==> coord_ok(#[trigger] self.x_ys@[x]@[k] as int)
    }

    /// No points.
    pub fn new() -> (r: Self)
        ensures
            r.well_formed(),
            r.columns() == Map::<i64, Seq<i64>>::empty(),
    {
        let r = ConvexHull { x_ys: BTreeMap::new() };
        assert(r.columns() =~= Map::<i64, Seq<i64>>::empty());
        r
    }

    /// Add the point `(y, x)`.
    pub fn add(&mut self, y: i64, x: i64)
        requires
            old(self).well_formed(),
            coord_ok(y as int),
            coord_ok(x as int),
        ensures
            final(self).well_formed(),
            final(self).columns() == old(self).columns().insert(
                x,
                if old(self).columns().contains_key(x) {
                    old(self).columns()[x]
                } else {
                    Seq::empty()
                }.push(y),
            ),
    {
        let ghost m0 = self.x_ys@;
        let mut ys: Vec<i64> = match self.x_ys.remove(&x) {
            Some(v) => v,
            None => Vec::new(),
        };
        ys.push(y);
        self.x_ys.insert(x, ys);
        proof {
            assert(self.columns() =~= old(self).columns().insert(
                x,
                if old(self).columns().contains_key(x) {
                    old(self).columns()[x]
                } else {
                    Seq::empty()
                }.push(y),
            ));
            assert forall|z: i64| #[trigger] self.x_ys@.contains_key(z) implies self.x_ys@[z]@.len() >= 1 && coord_ok(
                z as int,
            ) && forall|k: int| 0 <= k < self.x_ys@[z]@.len() ==> coord_ok(#[trigger] self.x_ys@[z]@[k] as int) by {
                if z != x {
                    assert(m0.contains_key(z));
                } else {
                    assert forall|k: int| 0 <= k < self.x_ys@[z]@.len() implies coord_ok(#[trigger] self.x_ys@[z]@[k] as int) by {
                        if k < self.x_ys@[z]@.len() - 1 {
                            assert(m0.contains_key(z));
                        }
                    }
                }
            }
        }
    }

    /// Append `p` unless it was kept already.
    fn keep_new(p: (i64, i64), ret: &mut Vec<(i64, i64)>, seen: &mut BTreeSet<(i64, i64)>)
        requires
            old(seen)@ == old(ret)@.to_set(),
            old(ret)@.no_duplicates(),
        ensures
            final(seen)@ == final(ret)@.to_set(),
            final(ret)@.no_duplicates(),
            final(ret)@ == if old(ret)@.contains(p) {
                old(ret)@
            } else {
                old(ret)@.push(p)
            },
    {
        if !seen.contains(&p) {
            let ghost old_ret = ret@;
            ret.push(p);
            seen.insert(p);
            proof {
                old_ret.lemma_push_to_set_commute(p);
                assert forall|a: int, b: int| 0 <= a < b < ret@.len() implies ret@[a] != ret@[b] by {
                    if b == ret@.len() - 1 {
                        assert(old_ret[a] == ret@[a]);
                    }
                }
            }
        }
    }

    /// The points of the convex hull: the lower chain from left to right, then the upper chain
    /// from right to left, each point once.
    #[verifier::spinoff_prover]
    pub fn convex_hull(&self) -> (r: Vec<(i64, i64)>)
        requires
            self.well_formed(),
        ensures
            r@.no_duplicates(),
            forall|i: int|
                0 <= i < r@.len() ==> #[trigger] self.columns().contains_key(r@[i].1) && self.columns()[r@[i].1].contains(
                    r@[i].0,
                ),
            forall|x: i64, y: i64|
                #![trigger extreme_key(self.columns(), x), self.columns()[x].contains(y)]
                extreme_key(self.columns(), x) && self.columns()[x].contains(y) ==> r@.contains((y, x)),
            self.columns().dom().len() > 0 ==> exists|lo: Seq<(i64, i64)>, hi: Seq<(i64, i64)>|
                #[trigger] hull_frame(self.columns(), r@, lo, hi),
    {
        broadcast use vstd::std_specs::btree::group_btree_axioms;

        let ghost m = self.x_ys@;
        let ghost rem = vstd::std_specs::btree::spec_keys_iter(&self.x_ys).remaining();
        let mut lower_in: Vec<(i64, Vec<i64>)> = Vec::new();
        for xr in it: self.x_ys.keys()
            invariant
                m == self.x_ys@,
                it.seq() == rem,
                rem.unref().to_set() == m.dom(),
                lower_in@.len() == it.index(),
                forall|i: int|
                    #![trigger lower_in@[i]] 0 <= i < it.index() ==> lower_in@[i].0 == *rem[i] && lower_in@[i].1@.to_multiset()
                        == m[*rem[i]]@.to_multiset() && sorted(lower_in@[i].1@),
        {
            let x = *xr;
            proof {
                assert(rem.unref()[it.index() as int] == x);
                assert(rem.unref().to_set().contains(x));
            }
            let ys = self.x_ys.get(&x).unwrap();
            let mut col: Vec<i64> = Vec::new();
            for k in 0..ys.len()
                invariant
                    col@ == ys@.subrange(0, k as int),
            {
                col.push(ys[k]);
            }
            assert(col@ == ys@);
            sort_vec(&mut col);
            let ghost idx = it.index();
            let ghost before_push = lower_in@;
            lower_in.push((x, col));
            proof {
                assert(ys@ == m[x]@);
                assert(lower_in@[idx].1@.to_multiset() == m[x]@.to_multiset());
                assert forall|i: int| 0 <= i < idx + 1 implies lower_in@[i].0 == *rem[i]
                    && lower_in@[i].1@.to_multiset() == m[*rem[i]]@.to_multiset() && sorted(lower_in@[i].1@) by {
                    if i < idx {
                        assert(lower_in@[i] == before_push[i]);
                    } else {
                        assert(*rem[i] == x);
                    }
                }
            }
        }
        proof {
            lemma_columns_from_map(self, lower_in@, rem);
        }
        let lower = weakly_monotone_tangents(&lower_in);
        let ghost low = lower@;
        proof {
            assert forall|x: i64, y: i64|
                #![trigger extreme_key(self.columns(), x), self.columns()[x].contains(y)]
                extreme_key(self.columns(), x) && self.columns()[x].contains(y) implies low.contains((y, x)) by {
                lemma_extreme_in_chain(self, lower_in@, rem, low, x, y);
            }
        }
        let mut upper_in: Vec<(i64, Vec<i64>)> = Vec::new();
        let n = lower_in.len();
        let mut k: usize = 0;
        while k < n
            invariant
                n == lower_in@.len(),
                k <= n,
                columns_ok(lower_in@, true),
                upper_in@.len() == k,
                forall|i: int|
                    #![trigger upper_in@[i]] 0 <= i < k ==> upper_in@[i].0 == lower_in@[n - 1 - i].0 && upper_in@[i].1@
                        == lower_in@[n - 1 - i].1@.reverse(),
            decreases n - k,
        {
            let i = n - 1 - k;
            let x = lower_in[i].0;
            let mut col: Vec<i64> = Vec::new();
            let clen = lower_in[i].1.len();
            for c in 0..clen
                invariant
                    clen == lower_in@[i as int].1@.len(),
                    i < lower_in@.len(),
                    col@ == lower_in@[i as int].1@.subrange(0, c as int),
            {
                col.push(lower_in[i].1[c]);
            }
            assert(col@ == lower_in@[i as int].1@);
            reverse_vec(&mut col);
            let ghost before_push = upper_in@;
            upper_in.push((x, col));
            proof {
                assert forall|j: int| 0 <= j < k + 1 implies upper_in@[j].0 == lower_in@[n - 1 - j].0
                    && upper_in@[j].1@ == lower_in@[n - 1 - j].1@.reverse() by {
                    if j < k {
                        assert(upper_in@[j] == before_push[j]);
                    } else {
                        assert(j == n - 1 - i);
                        assert(upper_in@[j].0 == x);
                        assert(x == lower_in@[i as int].0);
                        assert(upper_in@[j].1@ == lower_in@[i as int].1@.reverse());
                    }
                }
            }
            k = k + 1;
        }
        proof {
            assert(upper_in@.len() == n);
            lemma_reversed_columns(lower_in@, upper_in@);
        }
        let upper = weakly_monotone_tangents(&upper_in);
        let ghost upp = upper@;
        let mut ret: Vec<(i64, i64)> = Vec::new();
        let mut seen: BTreeSet<(i64, i64)> = BTreeSet::new();
        for k in 0..lower.len()
            invariant
                low == lower@,
                seen@ == ret@.to_set(),
                ret@.no_duplicates(),
                forall|j: int| 0 <= j < k ==> ret@.contains(#[trigger] low[j]),
                forall|i: int| 0 <= i < lower@.len() ==> from_columns(#[trigger] lower@[i], lower_in@),
                forall|i: int|
                    0 <= i < ret@.len() ==> from_columns(#[trigger] ret@[i], lower_in@) || from_columns(ret@[i], upper_in@),
        {
            let p = lower[k];
            let ghost r0 = ret@;
            Self::keep_new(p, &mut ret, &mut seen);
            proof {
                assert forall|j: int| 0 <= j < k + 1 implies ret@.contains(#[trigger] low[j]) by {
                    if j < k {
                        let t = choose|t: int| 0 <= t < r0.len() && r0[t] == low[j];
                        if !r0.contains(p) {
                            assert(ret@[t] == r0[t]);
                        }
                    } else if r0.contains(p) {
                    } else {
                        assert(ret@[r0.len() as int] == p);
                    }
                }
            }
        }
        for k in 0..upper.len()
            invariant
                seen@ == ret@.to_set(),
                ret@.no_duplicates(),
                forall|j: int| 0 <= j < low.len() ==> ret@.contains(#[trigger] low[j]),
                upp == upper@,
                forall|j: int| 0 <= j < k ==> ret@.contains(#[trigger] upp[j]),
                forall|i: int| 0 <= i < upper@.len() ==> from_columns(#[trigger] upper@[i], upper_in@),
                forall|i: int|
                    0 <= i < ret@.len() ==> from_columns(#[trigger] ret@[i], lower_in@) || from_columns(ret@[i], upper_in@),
        {
            let p = upper[k];
            let ghost r0 = ret@;
            Self::keep_new(p, &mut ret, &mut seen);
            proof {
                assert forall|j: int| 0 <= j < low.len() implies ret@.contains(#[trigger] low[j]) by {
                    let t = choose|t: int| 0 <= t < r0.len() && r0[t] == low[j];
                    if !r0.contains(p) {
                        assert(ret@[t] == r0[t]);
                    }
                }
                assert forall|j: int| 0 <= j < k + 1 implies ret@.contains(#[trigger] upp[j]) by {
                    if j < k {
                        let t = choose|t: int| 0 <= t < r0.len() && r0[t] == upp[j];
                        if !r0.contains(p) {
                            assert(ret@[t] == r0[t]);
                        }
                    } else if r0.contains(p) {
                    } else {
                        assert(ret@[r0.len() as int] == p);
                    }
                }
            }
        }
        assert(self.columns().dom().len() > 0 ==> exists|lo: Seq<(i64, i64)>, hi: Seq<(i64, i64)>|
            #[trigger] hull_frame(self.columns(), ret@, lo, hi)) by {
            if self.columns().dom().len() > 0 {
                assert(self.columns().dom() == m.dom());
                if lower_in@.len() == 0 {
                    assert(rem.unref() =~= Seq::<i64>::empty());
                    assert(m.dom() =~= Set::<i64>::empty());
                }
                lemma_hull_frame(self, lower_in@, upper_in@, rem, low, upp, ret@);
            }
        }
        proof {
            lemma_points_in_hull(self, lower_in@, upper_in@, ret@);
            assert forall|x: i64, y: i64|
                #![trigger extreme_key(self.columns(), x), self.columns()[x].contains(y)]
                extreme_key(self.columns(), x) && self.columns()[x].contains(y) implies ret@.contains((y, x)) by {
                let j = choose|j: int| 0 <= j < low.len() && low[j] == (y, x);
                assert(ret@.contains(low[j]));
            }
        }
        ret
    }
}

/// `x` is the least or the greatest key of `m`.
pub open spec fn extreme_key(m: Map<i64, Seq<i64>>, x: i64) -> bool {
    &&& m.contains_key(x)
    &&& (forall|z: i64| m.contains_key(z) ==> x <= z) || (forall|z: i64| m.contains_key(z) ==> z <= x)
}

/// Every point of the leftmost or the rightmost column lies on the chain built over the
/// columns in key order.
proof fn lemma_extreme_in_chain(h: &ConvexHull, s: Seq<(i64, Vec<i64>)>, rem: Seq<&i64>, low: Seq<(i64, i64)>, x: i64, y: i64)
    requires
        rem.unref().to_set() == h.x_ys@.dom(),
        s.len() == rem.len(),
        forall|i: int|
            #![trigger s[i]] 0 <= i < s.len() ==> s[i].0 == *rem[i] && s[i].1@.to_multiset() == h.x_ys@[*rem[i]]@.to_multiset(),
        columns_ok(s, true),
        entries_from_map(s, h.x_ys@),
        extreme_key(h.columns(), x),
        h.columns()[x].contains(y),
        s.len() > 0 ==> tangents_ok(low, s),
    ensures
        low.contains((y, x)),
{
    broadcast use vstd::seq_lib::group_to_multiset_ensures;

    let m = h.x_ys@;
    assert(m.contains_key(x));
    assert(rem.unref().to_set().contains(x));
    let j = choose|j: int| 0 <= j < rem.unref().len() && rem.unref()[j] == x;
    assert(s[j].0 == x);
    let n = s.len() as int;
    let is_min = forall|z: i64| h.columns().contains_key(z) ==> x <= z;
    if is_min && j > 0 {
        assert(m.contains_key(s[0].0));
        assert(before(s[0].0, s[j].0, true));
        assert(h.columns().contains_key(s[0].0));
    }
    if !is_min && j < n - 1 {
        assert(m.contains_key(s[n - 1].0));
        assert(before(s[j].0, s[n - 1].0, true));
        assert(h.columns().contains_key(s[n - 1].0));
    }
    assert(h.columns()[x] == m[x]@);
    assert(m[x]@.contains(y));
    assert(m[x]@.to_multiset().count(y) > 0);
    assert(s[j].1@.to_multiset().count(y) > 0);
    assert(s[j].1@.contains(y));
    let t = choose|t: int| 0 <= t < s[j].1@.len() && s[j].1@[t] == y;
    if is_min {
        assert(j == 0);
        let f = s[0].1@.len() - 1;
        if t == 0 {
            assert(low[f] == (y, x));
        } else {
            assert(low[f - t] == (s[0].1@[f - (f - t)], s[0].0));
            assert(low[f - t] == (y, x));
        }
    } else {
        assert(j == n - 1);
        let b = s[n - 1].1@.len() - 1;
        if t == 0 {
            assert(low[low.len() - b - 1] == (y, x));
        } else {
            assert(low[low.len() - b + (t - 1)] == (s[n - 1].1@[1 + (t - 1)], s[n - 1].0));
            assert(low[low.len() - b + (t - 1)] == (y, x));
        }
    }
}

/// Every entry is a column of `m` with its points in some order.
pub open spec fn entries_from_map(s: Seq<(i64, Vec<i64>)>, m: Map<i64, Vec<i64>>) -> bool {
    forall|i: int|
        0 <= i < s.len() ==> m.contains_key(#[trigger] s[i].0) && s[i].1@.to_multiset() == m[s[i].0]@.to_multiset()
}

/// Columns copied from the map in key order satisfy the column conditions.
proof fn lemma_columns_from_map(h: &ConvexHull, s: Seq<(i64, Vec<i64>)>, rem: Seq<&i64>)
    requires
        h.well_formed(),
        rem == vstd::std_specs::btree::spec_keys_iter(&h.x_ys).remaining(),
        s.len() == rem.len(),
        forall|i: int|
            #![trigger s[i]] 0 <= i < s.len() ==> s[i].0 == *rem[i] && s[i].1@.to_multiset() == h.x_ys@[*rem[i]]@.to_multiset(),
    ensures
        columns_ok(s, true),
        entries_from_map(s, h.x_ys@),
{
    broadcast use vstd::seq_lib::group_to_multiset_ensures;

    let m = h.x_ys@;
    lemma_increasing_keys(rem);
    assert forall|i: int| 0 <= i < s.len() implies m.contains_key(#[trigger] s[i].0) && s[i].1@.to_multiset()
        == m[s[i].0]@.to_multiset() by {
        assert(rem.unref()[i] == *rem[i]);
        assert(rem.unref().to_set().contains(*rem[i]));
    }
    assert forall|i: int, j: int| 0 <= i < j < s.len() implies before(#[trigger] s[i].0, #[trigger] s[j].0, true) by {
        assert(*rem[i] < *rem[j]);
    }
    assert forall|i: int| 0 <= i < s.len() implies (#[trigger] s[i]).1@.len() >= 1 && coord_ok(s[i].0 as int) by {
        assert(m.contains_key(s[i].0));
        assert(s[i].1@.to_multiset().len() == m[s[i].0]@.to_multiset().len());
    }
    assert forall|i: int, k: int| 0 <= i < s.len() && 0 <= k < s[i].1@.len() implies coord_ok(#[trigger] s[i].1@[k] as int) by {
        let y = s[i].1@[k];
        assert(m.contains_key(s[i].0));
        assert(s[i].1@.contains(y));
        assert(s[i].1@.to_multiset().contains(y));
        assert(m[s[i].0]@.to_multiset().contains(y));
        assert(m[s[i].0]@.contains(y));
    }
}

/// Keys listed by a map iterator increase strictly.
proof fn lemma_increasing_keys(keys: Seq<&i64>)
    requires
        vstd::std_specs::btree::increasing_seq(keys),
    ensures
        forall|i: int, j: int| 0 <= i < j < keys.len() ==> *keys[i] < *keys[j],
{
    broadcast use vstd::laws_cmp::group_laws_cmp;

    assert(vstd::laws_cmp::obeys_cmp::<i64>());
    assert(vstd::laws_cmp::obeys_cmp::<&i64>());
    vstd::std_specs::btree::axiom_increasing_seq_meaning(keys);
    assert forall|i: int, j: int| 0 <= i < j < keys.len() implies *keys[i] < *keys[j] by {
        assert(OrdSpec::cmp_spec(&keys[i], &keys[j]) is Less);
    }
}

/// The columns in reverse order, each reversed, satisfy the column conditions downwards.
proof fn lemma_reversed_columns(lo: Seq<(i64, Vec<i64>)>, up: Seq<(i64, Vec<i64>)>)
    requires
        columns_ok(lo, true),
        up.len() == lo.len(),
        forall|i: int|
            #![trigger up[i]] 0 <= i < up.len() ==> up[i].0 == lo[lo.len() - 1 - i].0 && up[i].1@ == lo[lo.len() - 1
                - i].1@.reverse(),
    ensures
        columns_ok(up, false),
{
    let n = lo.len() as int;
    assert forall|i: int, j: int| 0 <= i < j < up.len() implies before(#[trigger] up[i].0, #[trigger] up[j].0, false) by {
        assert(before(lo[n - 1 - j].0, lo[n - 1 - i].0, true));
    }
    assert forall|i: int| 0 <= i < up.len() implies (#[trigger] up[i]).1@.len() >= 1 && coord_ok(up[i].0 as int) by {
        assert(up[i].0 == lo[n - 1 - i].0);
        assert(lo[n - 1 - i].1@.len() >= 1);
    }
    assert forall|i: int, k: int| 0 <= i < up.len() && 0 <= k < up[i].1@.len() implies coord_ok(#[trigger] up[i].1@[k] as int) by {
        assert(up[i].0 == lo[n - 1 - i].0);
        let c = lo[n - 1 - i].1@;
        assert(up[i].1@[k] == c[c.len() - 1 - k]);
    }
}

/// Every point taken from the lower or upper columns is a point of the hull's input.
#[verifier::spinoff_prover]
proof fn lemma_points_in_hull(
    h: &ConvexHull,
    lo: Seq<(i64, Vec<i64>)>,
    up: Seq<(i64, Vec<i64>)>,
    pts: Seq<(i64, i64)>,
)
    requires
        entries_from_map(lo, h.x_ys@),
        up.len() == lo.len(),
        forall|i: int|
            #![trigger up[i]] 0 <= i < up.len() ==> up[i].0 == lo[lo.len() - 1 - i].0 && up[i].1@ == lo[lo.len() - 1
                - i].1@.reverse(),
        forall|i: int| 0 <= i < pts.len() ==> from_columns(#[trigger] pts[i], lo) || from_columns(pts[i], up),
    ensures
        forall|i: int|
            0 <= i < pts.len() ==> #[trigger] h.columns().contains_key(pts[i].1) && h.columns()[pts[i].1].contains(
                pts[i].0,
            ),
{
    assert forall|i: int| 0 <= i < pts.len() implies h.columns().contains_key(#[trigger] pts[i].1)
        && h.columns()[pts[i].1].contains(pts[i].0) by {
        lemma_point_in_hull(h, lo, up, pts[i]);
    }
    assert forall|i: int| 0 <= i < pts.len() implies #[trigger] h.columns().contains_key(pts[i].1) by {
        assert(h.columns().contains_key(pts[i].1));
    }
}

/// A point of the lower or upper columns is a point of the hull's input.
proof fn lemma_point_in_hull(h: &ConvexHull, lo: Seq<(i64, Vec<i64>)>, up: Seq<(i64, Vec<i64>)>, p: (i64, i64))
    requires
        entries_from_map(lo, h.x_ys@),
        up.len() == lo.len(),
        forall|i: int|
            #![trigger up[i]] 0 <= i < up.len() ==> up[i].0 == lo[lo.len() - 1 - i].0 && up[i].1@ == lo[lo.len() - 1
                - i].1@.reverse(),
        from_columns(p, lo) || from_columns(p, up),
    ensures
        h.columns().contains_key(p.1),
        h.columns()[p.1].contains(p.0),
{
    broadcast use vstd::seq_lib::group_to_multiset_ensures;

    let m = h.x_ys@;
    let n = lo.len() as int;
    let i = if from_columns(p, lo) {
        choose|i: int| 0 <= i < lo.len() && p.1 == lo[i].0 && (#[trigger] lo[i].1@).contains(p.0)
    } else {
        let j = choose|j: int| 0 <= j < up.len() && p.1 == up[j].0 && (#[trigger] up[j].1@).contains(p.0);
        let k = choose|k: int| 0 <= k < up[j].1@.len() && up[j].1@[k] == p.0;
        let c = lo[n - 1 - j].1@;
        assert(c[c.len() - 1 - k] == p.0);
        assert(c.contains(p.0));
        n - 1 - j
    };
    assert(lo[i].1@.contains(p.0));
    assert(m.contains_key(lo[i].0));
    assert(lo[i].1@.to_multiset().contains(p.0));
    assert(m[lo[i].0]@.to_multiset().contains(p.0));
    assert(m[p.1]@.contains(p.0));
}

/// Every point of the columns of `m` lies on the inner side of each segment of `c` over its `x`.
pub open spec fn bounds_points(c: Seq<(i64, i64)>, m: Map<i64, Seq<i64>>, up: bool) -> bool {
    forall|x: i64, y: i64, k: int|
        #![trigger m[x].contains(y), c[k]]
        m.contains_key(x) && m[x].contains(y) && 0 <= k && k + 1 < c.len() && between(c[k], c[k + 1], (y, x), up)
            ==> !outside(c[k], c[k + 1], (y, x))
}

/// `c` runs in the sweep direction from an extreme key of `m` to the other extreme key.
pub open spec fn spans_keys(c: Seq<(i64, i64)>, m: Map<i64, Seq<i64>>, up: bool) -> bool {
    &&& c.len() >= 1
    &&& forall|k: int, l: int| 0 <= k < l < c.len() ==> before(#[trigger] c[k].1, #[trigger] c[l].1, up)
    &&& forall|z: i64| #[trigger] m.contains_key(z) ==> !before(z, c[0].1, up) && !before(c.last().1, z, up)
}

/// The points `r` hold a lower chain `lo` (left to right) and an upper chain `hi` (right to
/// left), each from the leftmost to the rightmost column, with every point of `m` on or
/// above `lo` and on or below `hi`: every point lies in the polygon spanned by points of `r`.
pub open spec fn hull_frame(m: Map<i64, Seq<i64>>, r: Seq<(i64, i64)>, lo: Seq<(i64, i64)>, hi: Seq<(i64, i64)>) -> bool {
    &&& spans_keys(lo, m, true)
    &&& bounds_points(lo, m, true)
    &&& spans_keys(hi, m, false)
    &&& bounds_points(hi, m, false)
    &&& forall|k: int| 0 <= k < lo.len() ==> r.contains(#[trigger] lo[k])
    &&& forall|k: int| 0 <= k < hi.len() ==> r.contains(#[trigger] hi[k])
}

/// The head of every column is its innermost point: the least `y` when sweeping towards
/// larger `x`, the greatest otherwise.
pub open spec fn head_extreme(s: Seq<(i64, Vec<i64>)>, up: bool) -> bool {
    forall|i: int, k: int|
        0 <= i < s.len() && 0 <= k < s[i].1@.len() ==> if up {
            s[i].1@[0] <= #[trigger] s[i].1@[k]
        } else {
            s[i].1@[k] <= s[i].1@[0]
        }
}

/// Every point of `m` is a point of some column of `s`.
pub open spec fn covers(s: Seq<(i64, Vec<i64>)>, m: Map<i64, Seq<i64>>) -> bool {
    forall|x: i64, y: i64|
        #![trigger m[x].contains(y)]
        m.contains_key(x) && m[x].contains(y) ==> exists|i: int| 0 <= i < s.len() && s[i].0 == x && (#[trigger] s[i].1@).contains(y)
}

/// A chain whose heads all lie on its inner side frames every point of the columns.
proof fn lemma_chain_frame(c: Seq<(i64, i64)>, s: Seq<(i64, Vec<i64>)>, m: Map<i64, Seq<i64>>, up: bool)
    requires
        columns_ok(s, up),
        s.len() >= 1,
        chain_ok(c, s, s.len() as int, up),
        inner_ok(c, s, s.len() as int, up),
        c.len() >= 1,
        c[0] == head(s, 0),
        c.last() == head(s, s.len() - 1),
        head_extreme(s, up),
        covers(s, m),
        forall|z: i64| #[trigger] m.contains_key(z) ==> m[z].len() >= 1,
    ensures
        spans_keys(c, m, up),
        bounds_points(c, m, up),
{
    let n = s.len() as int;
    assert forall|z: i64| #[trigger] m.contains_key(z) implies !before(z, c[0].1, up) && !before(c.last().1, z, up) by {
        let y = m[z][0];
        assert(m[z].contains(y));
        let i = choose|i: int| 0 <= i < s.len() && s[i].0 == z && (#[trigger] s[i].1@).contains(y);
        if i > 0 {
            assert(before(s[0].0, s[i].0, up));
        }
        if i < n - 1 {
            assert(before(s[i].0, s[n - 1].0, up));
        }
    }
    assert forall|x: i64, y: i64, k: int|
        #![trigger m[x].contains(y), c[k]]
        m.contains_key(x) && m[x].contains(y) && 0 <= k && k + 1 < c.len() && between(c[k], c[k + 1], (y, x), up)
            implies !outside(c[k], c[k + 1], (y, x)) by {
        let i = choose|i: int| 0 <= i < s.len() && s[i].0 == x && (#[trigger] s[i].1@).contains(y);
        let t = choose|t: int| 0 <= t < s[i].1@.len() && s[i].1@[t] == y;
        let hd = head(s, i);
        assert(between(c[k], c[k + 1], hd, up));
        assert(!outside(c[k], c[k + 1], hd));
        let a = c[k];
        let b = c[k + 1];
        assert(before(a.1, b.1, up));
        assert(if up { hd.0 <= s[i].1@[t] } else { s[i].1@[t] <= hd.0 });
        if up {
            assert((b.1 - a.1) * (y - a.0) >= (b.0 - a.0) * (x - a.1)) by (nonlinear_arith)
                requires
                    b.1 > a.1,
                    hd.0 <= y,
                    (b.1 - a.1) * (hd.0 - a.0) >= (b.0 - a.0) * (x - a.1),
            ;
        } else {
            assert((b.1 - a.1) * (y - a.0) >= (b.0 - a.0) * (x - a.1)) by (nonlinear_arith)
                requires
                    b.1 < a.1,
                    y <= hd.0,
                    (b.1 - a.1) * (hd.0 - a.0) >= (b.0 - a.0) * (x - a.1),
            ;
        }
    }
}

/// The columns copied from the map, each sorted, and the reversed copies, both with the
/// chains built over them, frame every point of the hull.
proof fn lemma_hull_frame(
    h: &ConvexHull,
    lo: Seq<(i64, Vec<i64>)>,
    up: Seq<(i64, Vec<i64>)>,
    rem: Seq<&i64>,
    low: Seq<(i64, i64)>,
    upp: Seq<(i64, i64)>,
    r: Seq<(i64, i64)>,
)
    requires
        h.well_formed(),
        rem.unref().to_set() == h.x_ys@.dom(),
        lo.len() == rem.len(),
        lo.len() > 0,
        forall|i: int|
            #![trigger lo[i]] 0 <= i < lo.len() ==> lo[i].0 == *rem[i] && lo[i].1@.to_multiset() == h.x_ys@[*rem[i]]@.to_multiset()
                && sorted(lo[i].1@),
        columns_ok(lo, true),
        columns_ok(up, false),
        up.len() == lo.len(),
        forall|i: int|
            #![trigger up[i]] 0 <= i < up.len() ==> up[i].0 == lo[lo.len() - 1 - i].0 && up[i].1@ == lo[lo.len() - 1
                - i].1@.reverse(),
        tangents_ok(low, lo),
        tangents_ok(upp, up),
        forall|k: int| 0 <= k < low.len() ==> r.contains(#[trigger] low[k]),
        forall|k: int| 0 <= k < upp.len() ==> r.contains(#[trigger] upp[k]),
    ensures
        exists|a: Seq<(i64, i64)>, b: Seq<(i64, i64)>| #[trigger] hull_frame(h.columns(), r, a, b),
{
    broadcast use vstd::seq_lib::group_to_multiset_ensures;

    let m = h.columns();
    let n = lo.len() as int;
    assert forall|z: i64| #[trigger] m.contains_key(z) implies m[z].len() >= 1 by {
        assert(h.x_ys@.contains_key(z));
    }
    // every point is in a column of the copies
    assert forall|x: i64, y: i64| #![trigger m[x].contains(y)] m.contains_key(x) && m[x].contains(y) implies exists|i: int|
        0 <= i < lo.len() && lo[i].0 == x && (#[trigger] lo[i].1@).contains(y) by {
        assert(rem.unref().to_set().contains(x));
        let j = choose|j: int| 0 <= j < rem.unref().len() && rem.unref()[j] == x;
        assert(lo[j].0 == x);
        assert(h.x_ys@[x]@.to_multiset().count(y) > 0);
        assert(lo[j].1@.to_multiset().count(y) > 0);
        assert(lo[j].1@.contains(y));
    }
    assert forall|x: i64, y: i64| #![trigger m[x].contains(y)] m.contains_key(x) && m[x].contains(y) implies exists|i: int|
        0 <= i < up.len() && up[i].0 == x && (#[trigger] up[i].1@).contains(y) by {
        let i = choose|i: int| 0 <= i < lo.len() && lo[i].0 == x && (#[trigger] lo[i].1@).contains(y);
        let t = choose|t: int| 0 <= t < lo[i].1@.len() && lo[i].1@[t] == y;
        let c = lo[i].1@;
        let u = n - 1 - i;
        assert(up[u].1@ == lo[n - 1 - u].1@.reverse());
        assert(up[u].1@[c.len() - 1 - t] == y);
        assert(up[u].1@.contains(y));
    }
    assert forall|i: int, k: int| 0 <= i < lo.len() && 0 <= k < lo[i].1@.len() implies lo[i].1@[0] <= #[trigger] lo[i].1@[k] by {
        if k > 0 {
            assert(sorted(lo[i].1@));
        }
    }
    assert forall|i: int, k: int| 0 <= i < up.len() && 0 <= k < up[i].1@.len() implies #[trigger] up[i].1@[k] <= up[i].1@[0] by {
        let c = lo[n - 1 - i].1@;
        assert(sorted(c));
        assert(up[i].1@[k] == c[c.len() - 1 - k]);
        assert(up[i].1@[0] == c[c.len() - 1]);
        if k > 0 {
            assert(c[c.len() - 1 - k] <= c[c.len() - 1]);
        }
    }
    let f1 = lo[0].1@.len() - 1;
    let b1 = lo[n - 1].1@.len() - 1;
    let lc = low.subrange(f1, low.len() - b1);
    assert(chain_ok(lc, lo, n, true));
    assert(inner_ok(lc, lo, n, true));
    assert(lc[0] == low[f1]);
    assert(lc.last() == low[low.len() - b1 - 1]);
    lemma_chain_frame(lc, lo, m, true);
    let f2 = up[0].1@.len() - 1;
    let b2 = up[n - 1].1@.len() - 1;
    let hc = upp.subrange(f2, upp.len() - b2);
    assert(chain_ok(hc, up, n, false));
    assert(inner_ok(hc, up, n, false));
    assert(hc[0] == upp[f2]);
    assert(hc.last() == upp[upp.len() - b2 - 1]);
    lemma_chain_frame(hc, up, m, false);
    assert forall|k: int| 0 <= k < lc.len() implies r.contains(#[trigger] lc[k]) by {
        assert(lc[k] == low[f1 + k]);
    }
    assert forall|k: int| 0 <= k < hc.len() implies r.contains(#[trigger] hc[k]) by {
        assert(hc[k] == upp[f2 + k]);
    }
    assert(hull_frame(m, r, lc, hc));
}

} // verus!
