//! Longest increasing subsequence, by index.
use vstd::prelude::*;

verus! {

/// Whether `t` lists indices of `s` in increasing order at which the values
/// of `s` strictly increase.
pub open spec fn increasing_in(s: Seq<usize>, t: Seq<int>) -> bool {
    (forall|k: int| 0 <= k < t.len() ==> 0 <= #[trigger] t[k] < s.len()) && (forall|a: int, b: int|
        0 <= a < b < t.len() ==> t[a] < t[b] && s[t[a]] < s[t[b]])
}

/// Whether no strictly increasing subsequence of `s` that starts at or
/// after `i` is longer than `lens` at its first index.
#[verifier::opaque]
pub open spec fn starts_bounded(s: Seq<usize>, lens: Seq<usize>, i: int) -> bool {
    forall|t: Seq<int>|
        increasing_in(s, t) && t.len() > 0 && t[0] >= i ==> t.len() <= lens[t[0]]
}

/// The indices of `v`, as integers.
pub open spec fn as_ints(v: Seq<usize>) -> Seq<int> {
    v.map_values(|x: usize| x as int)
}

/// The facts kept of `lens` and `next` for the positions from `i` on:
/// `lens[q]` is the length of an increasing subsequence starting at `q`
/// whose second index is `next[q]` (`next[q] == s.len()` when it has none).
#[verifier::opaque]
pub open spec fn chains_from(s: Seq<usize>, lens: Seq<usize>, next: Seq<usize>, i: int) -> bool {
    forall|q: int|
        i <= q < s.len() ==> 1 <= #[trigger] lens[q] <= s.len() - q && next[q] <= s.len() && (
        next[q] == s.len() <==> lens[q] == 1) && (next[q] < s.len() ==> q < next[q] && s[q]
            < s[next[q] as int] && lens[next[q] as int] + 1 == lens[q])
}

/// The greatest `lens[k] + 1` over the `k > i` with `s[i] < s[k]`, or 1,
/// with the first `k` that gives it (or the length of `s` when none does).
fn best_successor(s: &Vec<usize>, lens: &Vec<usize>, i: usize) -> (r: (usize, usize))
    requires
        i < s@.len(),
        lens@.len() == s@.len(),
        forall|q: int| i < q < s@.len() ==> 1 <= #[trigger] lens@[q] <= s@.len() - q,
    ensures
        1 <= r.0 <= s@.len() - i,
        r.1 <= s@.len(),
        r.1 == s@.len() <==> r.0 == 1,
        r.1 < s@.len() ==> i < r.1 && s@[i as int] < s@[r.1 as int] && lens@[r.1 as int] + 1
            == r.0,
        forall|q: int| i < q < s@.len() && s@[i as int] < s@[q] ==> #[trigger] lens@[q] + 1 <= r.0,
{
    let n = s.len();
    let mut best: usize = 1;
    let mut to: usize = n;
    let mut k: usize = i + 1;
    while k < n
        invariant
            n == s@.len(),
            i < k <= n,
            lens@.len() == n,
            1 <= best <= n - i,
            to <= n,
            to == n <==> best == 1,
            to < n ==> i < to < k && s@[i as int] < s@[to as int] && lens@[to as int] + 1 == best,
            forall|q: int| i < q < k && s@[i as int] < s@[q] ==> #[trigger] lens@[q] + 1 <= best,
            forall|q: int| i < q < n ==> 1 <= #[trigger] lens@[q] <= n - q,
        decreases n - k,
    {
        if s[i] < s[k] && lens[k] + 1 > best {
            best = lens[k] + 1;
            to = k;
        }
        k = k + 1;
    }
    (best, to)
}

/// For each index of `s`, the length of a longest strictly increasing
/// subsequence starting there, and the index that follows it in one such
/// subsequence.
fn suffix_chains(s: &Vec<usize>) -> (r: (Vec<usize>, Vec<usize>))
    ensures
        r.0@.len() == s@.len(),
        r.1@.len() == s@.len(),
        chains_from(s@, r.0@, r.1@, 0),
        starts_bounded(s@, r.0@, 0),
{
    let n = s.len();
    let mut lens: Vec<usize> = Vec::new();
    let mut next: Vec<usize> = Vec::new();
    while lens.len() < n
        invariant
            lens@.len() == next@.len(),
            lens@.len() <= n,
        decreases n - lens@.len(),
    {
        lens.push(0);
        next.push(n);
    }
    let mut i: usize = n;
    proof {
        reveal(starts_bounded);
        reveal(chains_from);
    }
    while i > 0
        invariant
            n == s@.len(),
            i <= n,
            lens@.len() == n,
            next@.len() == n,
            chains_from(s@, lens@, next@, i as int),
            starts_bounded(s@, lens@, i as int),
        decreases i,
    {
        i = i - 1;
        proof {
            reveal(chains_from);
        }
        let (best, to) = best_successor(s, &lens, i);
        let ghost old_lens = lens@;
        let ghost old_next = next@;
        lens.set(i, best);
        next.set(i, to);
        proof {
            reveal(starts_bounded);
            reveal(chains_from);
            assert forall|q: int| i <= q < n implies 1 <= #[trigger] lens@[q] <= s@.len() - q
                && next@[q] <= s@.len() && (next@[q] == s@.len() <==> lens@[q] == 1) && (next@[q]
                < s@.len() ==> q < next@[q] && s@[q] < s@[next@[q] as int] && lens@[next@[q] as int]
                + 1 == lens@[q]) by {
                if q > i {
                    assert(lens@[q] == old_lens[q]);
                    assert(next@[q] == old_next[q]);
                    if next@[q] < n {
                        assert(lens@[next@[q] as int] == old_lens[next@[q] as int]);
                    }
                } else {
                    if to < n {
                        assert(lens@[to as int] == old_lens[to as int]);
                    }
                }
            }
            assert forall|t: Seq<int>|
                increasing_in(s@, t) && t.len() > 0 && t[0] >= i implies t.len() <= lens@[t[0]] by {
                if t[0] == i {
                    if t.len() >= 2 {
                        let u = t.subrange(1, t.len() as int);
                        assert(increasing_in(s@, u));
                        assert(u[0] == t[1]);
                        assert(t[0] < t[1] && s@[t[0]] < s@[t[1]]);
                        assert(lens@[t[1]] == old_lens[t[1]]);
                    }
                } else {
                    assert(lens@[t[0]] == old_lens[t[0]]);
                }
            }
        }
    }
    (lens, next)
}

/// The indices of a longest strictly increasing subsequence of `s`: no
/// strictly increasing subsequence of `s` is longer, and of those as long,
/// none starts earlier.
pub fn longest_increasing_subsequence(s: &Vec<usize>) -> (r: Vec<usize>)
    ensures
        increasing_in(s@, as_ints(r@)),
        forall|t: Seq<int>| increasing_in(s@, t) ==> t.len() <= r@.len(),
        forall|t: Seq<int>|
            increasing_in(s@, t) && t.len() == r@.len() && t.len() > 0 ==> r@[0] <= t[0],
{
    let n = s.len();
    let (lens, next) = suffix_chains(s);
    if n == 0 {
        proof {
            assert forall|t: Seq<int>| increasing_in(s@, t) implies t.len() <= 0 by {
                if t.len() > 0 {
                    assert(0 <= t[0] < s@.len());
                }
            }
        }
        let e: Vec<usize> = Vec::new();
        assert(as_ints(e@) =~= Seq::<int>::empty());
        return e;
    }
    // The first start with the greatest length.
    let mut start: usize = 0;
    let mut j: usize = 1;
    while j < n
        invariant
            n == s@.len(),
            lens@.len() == n,
            0 < j <= n,
            start < j,
            forall|q: int| 0 <= q < j ==> #[trigger] lens@[q] <= lens@[start as int],
            forall|q: int| 0 <= q < start ==> #[trigger] lens@[q] < lens@[start as int],
        decreases n - j,
    {
        if lens[j] > lens[start] {
            start = j;
        }
        j = j + 1;
    }
    // Follow the chain from `start`.
    let total = lens[start];
    let mut r: Vec<usize> = Vec::new();
    let mut cur: usize = start;
    let mut more: bool = true;
    while more
        invariant
            n == s@.len(),
            lens@.len() == n,
            next@.len() == n,
            chains_from(s@, lens@, next@, 0),
            cur < n,
            r@.len() <= total,
            more ==> r@.len() + lens@[cur as int] == total,
            !more ==> r@.len() == total,
            r@.len() > 0 ==> r@[0] == start,
            r@.len() == 0 ==> cur == start,
            forall|k: int| 0 <= k < r@.len() ==> #[trigger] r@[k] < n,
            forall|a: int, b: int|
                0 <= a < b < r@.len() ==> r@[a] < r@[b] && s@[r@[a] as int] < s@[r@[b] as int],
            more && r@.len() > 0 ==> r@.last() < cur && s@[r@.last() as int] < s@[cur as int],
        decreases total - r@.len(),
    {
        proof {
            reveal(chains_from);
        }
        assert(lens@[cur as int] >= 1);
        r.push(cur);
        if next[cur] == n {
            more = false;
        } else {
            let p = next[cur];
            assert(cur < p && lens@[p as int] + 1 == lens@[cur as int]);
            cur = p;
        }
    }
    proof {
        reveal(starts_bounded);
        let ri = as_ints(r@);
        assert forall|k: int| 0 <= k < ri.len() implies 0 <= #[trigger] ri[k] < s@.len() by {
            assert(ri[k] == r@[k] as int);
        }
        assert forall|a: int, b: int| 0 <= a < b < ri.len() implies ri[a] < ri[b] && s@[ri[a]]
            < s@[ri[b]] by {
            assert(ri[a] == r@[a] as int);
            assert(ri[b] == r@[b] as int);
        }
        assert forall|t: Seq<int>| increasing_in(s@, t) implies t.len() <= r@.len() by {
            if t.len() > 0 {
                assert(0 <= t[0] < n);
                assert(lens@[t[0]] <= lens@[start as int]);
            }
        }
        assert forall|t: Seq<int>|
            increasing_in(s@, t) && t.len() == r@.len() && t.len() > 0 implies r@[0] <= t[0] by {
            assert(0 <= t[0] < n);
            assert(t.len() <= lens@[t[0]]);
            if t[0] < start {
                assert(lens@[t[0]] < lens@[start as int]);
            }
        }
    }
    r
}

} // verus!
