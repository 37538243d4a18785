//! The Z-algorithm: longest common prefixes of a sequence with its suffixes.
use vstd::prelude::*;

verus! {

/// `v` is the length of the longest common prefix of `s` and `s[i..]`.
pub open spec fn is_lcp(s: Seq<usize>, i: int, v: int) -> bool {
    &&& 0 <= v
    &&& i + v <= s.len()
    &&& forall|j: int| 0 <= j < v ==> #[trigger] s[i + j] == s[j]
    &&& (i + v == s.len() || s[i + v] != s[v])
}

/// For each `i`, the length of the longest common prefix of `s` and `s[i..]`;
/// entry `0` is `s.len()`.
pub fn z_algo(s: &[usize]) -> (ret: Vec<usize>)
    requires
        s.len() >= 1,
    ensures
        ret.len() == s.len(),
        ret[0] == s.len(),
        forall|i: int| 1 <= i < s.len() ==> is_lcp(s@, i, #[trigger] ret[i] as int),
{
    let n = s.len();
    let mut last_match: Option<(usize, usize)> = None;
    let mut ret: Vec<usize> = Vec::new();
    let mut k: usize = 0;
    while k < n
        invariant
            k <= n,
            ret.len() == k,
            forall|j: int| 0 <= j < k ==> #[trigger] ret[j] == 0,
        decreases n - k,
    {
        ret.push(0);
        k += 1;
    }
    ret.set(0, n);
    let mut i: usize = 1;
    while i < n
        invariant
            n == s.len(),
            1 <= i <= n,
            ret.len() == n,
            ret[0] == n,
            forall|j: int| 1 <= j < i ==> is_lcp(s@, j, #[trigger] ret[j] as int),
            last_match matches Some((m0, m1)) ==> {
                &&& 1 <= m0 < i
                &&& m1 == m0 + ret[m0 as int]
                &&& m1 <= n
            },
        decreases n - i,
    {
        let mut match_delta: usize = 0;
        let mut done = false;
        if let Some((m0, m1)) = last_match {
            if i < m1 {
                let k = i - m0;
                let rk = ret[k];
                assert(is_lcp(s@, m0 as int, ret[m0 as int] as int));
                assert(is_lcp(s@, k as int, rk as int));
                if rk != m1 - i {
                    let v = if rk < m1 - i {
                        rk
                    } else {
                        m1 - i
                    };
                    proof {
                        assert forall|j: int| 0 <= j < v implies #[trigger] s@[i + j] == s@[j] by {
                            assert(s@[m0 + (k + j)] == s@[k + j]);
                            assert(s@[k + j] == s@[j]);
                        }
                        if rk < m1 - i {
                            assert(s@[m0 + (k + rk)] == s@[k + rk]);
                        } else if i + v < n {
                            assert(m1 < n);
                            assert(s@[k + (m1 - i)] == s@[(m1 - i) as int]);
                            assert(s@[m1 as int] != s@[(m1 - m0) as int]);
                        }
                    }
                    ret.set(i, v);
                    done = true;
                } else {
                    proof {
                        assert forall|j: int| 0 <= j < m1 - i implies #[trigger] s@[i + j] == s@[j] by {
                            assert(s@[m0 + (k + j)] == s@[k + j]);
                            assert(s@[k + j] == s@[j]);
                        }
                    }
                    match_delta = m1 - i;
                }
            }
        }
        if !done {
            while i + match_delta < n
                invariant
                    n == s.len(),
                    1 <= i < n,
                    i + match_delta <= n,
                    forall|j: int| 0 <= j < match_delta ==> #[trigger] s@[i + j] == s@[j],
                ensures
                    i + match_delta <= n,
                    forall|j: int| 0 <= j < match_delta ==> #[trigger] s@[i + j] == s@[j],
                    i + match_delta == n || s@[i + match_delta] != s@[match_delta as int],
                decreases n - i - match_delta,
            {
                if s[match_delta] == s[i + match_delta] {
                    match_delta += 1;
                } else {
                    break;
                }
            }
            ret.set(i, match_delta);
            let keep = match last_match {
                Some((_m0, m1)) => i + match_delta <= m1,
                None => false,
            };
            if !keep {
                last_match = Some((i, i + match_delta));
            }
        }
        i += 1;
    }
    ret
}

} // verus!
