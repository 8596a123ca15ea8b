//! A stable merge sort over positions.

use vstd::prelude::*;

verus! {

/// Whether position `a` is to come before position `b`: by `lt`, and among
/// those that `lt` does not tell apart by position.
pub open spec fn ranks(lt: spec_fn(int, int) -> bool, a: int, b: int) -> bool {
    lt(a, b) || (!lt(b, a) && a < b)
}

/// Whether `lt` orders the positions below `n`, up to ties.
pub open spec fn weak_order(lt: spec_fn(int, int) -> bool, n: int) -> bool {
    &&& forall|a: int, b: int| 0 <= a < n && 0 <= b < n && #[trigger] lt(a, b) ==> !lt(b, a)
    &&& forall|a: int, b: int, c: int|
        0 <= a < n && 0 <= b < n && 0 <= c < n && #[trigger] lt(a, b) && #[trigger] lt(b, c) ==> lt(
            a,
            c,
        )
    &&& forall|a: int, b: int, c: int|
        0 <= a < n && 0 <= b < n && 0 <= c < n && #[trigger] lt(a, c) ==> #[trigger] lt(a, b) || lt(
            b,
            c,
        )
}

/// Whether `order` lists every position below `n` once, each before those it
/// ranks before.
pub open spec fn is_ranking(
    order: Seq<usize>,
    n: int,
    lt: spec_fn(int, int) -> bool,
) -> bool {
    ranking_of(order, 0, n, lt)
}

/// [`is_ranking`] for the positions `lo..hi`.
pub open spec fn ranking_of(
    order: Seq<usize>,
    lo: int,
    hi: int,
    lt: spec_fn(int, int) -> bool,
) -> bool {
    &&& order.len() == hi - lo
    &&& forall|i: int| 0 <= i < order.len() ==> lo <= #[trigger] order[i] < hi
    &&& forall|x: usize| lo <= x < hi ==> #[trigger] order.contains(x)
    &&& forall|i: int, j: int|
        0 <= i < j < order.len() ==> ranks(lt, #[trigger] order[i] as int, #[trigger] order[j] as int)
}

proof fn lemma_ranks(lt: spec_fn(int, int) -> bool, n: int, a: int, b: int, c: int)
    requires
        weak_order(lt, n),
        0 <= a < n,
        0 <= b < n,
        0 <= c < n,
    ensures
        a != b ==> ranks(lt, a, b) || ranks(lt, b, a),
        ranks(lt, a, b) && ranks(lt, b, c) ==> ranks(lt, a, c),
        !ranks(lt, a, a),
{
    if ranks(lt, a, b) && ranks(lt, b, c) && !lt(a, c) {
        assert(!lt(a, b) || !lt(b, c));
        if lt(c, a) {
            assert(lt(c, b) || lt(b, a));
        }
        if lt(a, b) {
            assert(lt(a, c) || lt(c, b));
        }
        if lt(b, c) {
            assert(lt(b, a) || lt(a, c));
        }
    }
}

/// Merges two rankings of neighbouring ranges.
fn merge<F: Fn(usize, usize) -> bool>(
    left: &Vec<usize>,
    right: &Vec<usize>,
    lo: usize,
    mid: usize,
    hi: usize,
    less: &F,
    Ghost(lt): Ghost<spec_fn(int, int) -> bool>,
) -> (out: Vec<usize>)
    requires
        lo <= mid <= hi,
        weak_order(lt, hi as int),
        forall|a: usize, b: usize| a < hi && b < hi ==> call_requires(*less, (a, b)),
        forall|a: usize, b: usize, r: bool|
            a < hi && b < hi && call_ensures(*less, (a, b), r) ==> r == lt(a as int, b as int),
        ranking_of(left@, lo as int, mid as int, lt),
        ranking_of(right@, mid as int, hi as int, lt),
    ensures
        ranking_of(out@, lo as int, hi as int, lt),
{
    let mut out: Vec<usize> = Vec::new();
    let mut i: usize = 0;
    let mut j: usize = 0;
    while i < left.len() || j < right.len()
        invariant
            lo <= mid <= hi,
            weak_order(lt, hi as int),
            forall|a: usize, b: usize| a < hi && b < hi ==> call_requires(*less, (a, b)),
            forall|a: usize, b: usize, r: bool|
                a < hi && b < hi && call_ensures(*less, (a, b), r) ==> r == lt(a as int, b as int),
            ranking_of(left@, lo as int, mid as int, lt),
            ranking_of(right@, mid as int, hi as int, lt),
            i <= left@.len(),
            j <= right@.len(),
            out@.len() == i + j,
            forall|k: int| 0 <= k < out@.len() ==> lo <= #[trigger] out@[k] < hi,
            forall|a: int| 0 <= a < i ==> out@.contains(#[trigger] left@[a]),
            forall|b: int| 0 <= b < j ==> out@.contains(#[trigger] right@[b]),
            forall|p: int, q: int|
                0 <= p < q < out@.len() ==> ranks(
                    lt,
                    #[trigger] out@[p] as int,
                    #[trigger] out@[q] as int,
                ),
            forall|k: int, a: int|
                0 <= k < out@.len() && i <= a < left@.len() ==> ranks(
                    lt,
                    #[trigger] out@[k] as int,
                    #[trigger] left@[a] as int,
                ),
            forall|k: int, b: int|
                0 <= k < out@.len() && j <= b < right@.len() ==> ranks(
                    lt,
                    #[trigger] out@[k] as int,
                    #[trigger] right@[b] as int,
                ),
        decreases left@.len() - i + right@.len() - j,
    {
        let take_right: bool = if i == left.len() {
            true
        } else if j == right.len() {
            false
        } else {
            less(right[j], left[i])
        };
        let ghost before = out@;
        let x: usize = if take_right {
            right[j]
        } else {
            left[i]
        };
        out.push(x);
        proof {
            assert(forall|k: int| 0 <= k < before.len() ==> out@[k] == before[k]);
            assert(out@.last() == x);
            assert forall|a: int| 0 <= a < i implies out@.contains(#[trigger] left@[a]) by {
                assert(before.contains(left@[a]));
                let k = choose|k: int| 0 <= k < before.len() && before[k] == left@[a];
                assert(out@[k] == left@[a]);
            }
            assert forall|b: int| 0 <= b < j implies out@.contains(#[trigger] right@[b]) by {
                assert(before.contains(right@[b]));
                let k = choose|k: int| 0 <= k < before.len() && before[k] == right@[b];
                assert(out@[k] == right@[b]);
            }
            assert(out@.contains(x));
            if take_right {
                assert forall|a: int| i <= a < left@.len() implies ranks(
                    lt,
                    x as int,
                    #[trigger] left@[a] as int,
                ) by {
                    lemma_ranks(lt, hi as int, x as int, left@[i as int] as int, left@[a] as int);
                }
            } else {
                assert forall|b: int| j <= b < right@.len() implies ranks(
                    lt,
                    x as int,
                    #[trigger] right@[b] as int,
                ) by {
                    lemma_ranks(lt, hi as int, x as int, right@[j as int] as int, right@[b] as int);
                }
            }
        }
        if take_right {
            j += 1;
        } else {
            i += 1;
        }
    }
    proof {
        assert forall|x: usize| lo <= x < hi implies #[trigger] out@.contains(x) by {
            if x < mid {
                assert(left@.contains(x));
            } else {
                assert(right@.contains(x));
            }
        }
    }
    out
}

/// Ranks the positions `lo..hi`.
fn sort_range<F: Fn(usize, usize) -> bool>(
    lo: usize,
    hi: usize,
    less: &F,
    Ghost(lt): Ghost<spec_fn(int, int) -> bool>,
) -> (out: Vec<usize>)
    requires
        lo <= hi,
        weak_order(lt, hi as int),
        forall|a: usize, b: usize| a < hi && b < hi ==> call_requires(*less, (a, b)),
        forall|a: usize, b: usize, r: bool|
            a < hi && b < hi && call_ensures(*less, (a, b), r) ==> r == lt(a as int, b as int),
    ensures
        ranking_of(out@, lo as int, hi as int, lt),
    decreases hi - lo,
{
    if hi - lo < 2 {
        let mut out: Vec<usize> = Vec::new();
        if lo < hi {
            out.push(lo);
            proof {
                assert(out@[0] == lo);
                assert forall|x: usize| lo <= x < hi implies #[trigger] out@.contains(x) by {
                    assert(out@[0] == x);
                }
            }
        }
        return out;
    }
    let mid: usize = lo + (hi - lo) / 2;
    let left: Vec<usize> = sort_range(lo, mid, less, Ghost(lt));
    let right: Vec<usize> = sort_range(mid, hi, less, Ghost(lt));
    merge(&left, &right, lo, mid, hi, less, Ghost(lt))
}

/// Ranks the positions below `n` by `less`, keeping ties in place.
pub fn sort_positions<F: Fn(usize, usize) -> bool>(
    n: usize,
    less: &F,
    Ghost(lt): Ghost<spec_fn(int, int) -> bool>,
) -> (order: Vec<usize>)
    requires
        weak_order(lt, n as int),
        forall|a: usize, b: usize| a < n && b < n ==> call_requires(*less, (a, b)),
        forall|a: usize, b: usize, r: bool|
            a < n && b < n && call_ensures(*less, (a, b), r) ==> r == lt(a as int, b as int),
    ensures
        is_ranking(order@, n as int, lt),
{
    sort_range(0, n, less, Ghost(lt))
}

/// Whether each element goes before all that follow it.
pub open spec fn in_order<A>(s: Seq<A>, before: spec_fn(A, A) -> bool) -> bool {
    forall|j: int, k: int| 0 <= j < k < s.len() ==> before(#[trigger] s[j], #[trigger] s[k])
}

/// The same elements can be put in order in one way only.
pub proof fn lemma_one_order<A>(s: Seq<A>, t: Seq<A>, before: spec_fn(A, A) -> bool)
    requires
        forall|x: A| #[trigger] s.contains(x) <==> t.contains(x),
        forall|x: A, y: A| #[trigger] before(x, y) ==> !before(y, x),
        in_order(s, before),
        in_order(t, before),
    ensures
        s == t,
{
    lemma_order_prefix(s, t, before, s.len());
    lemma_order_prefix(t, s, before, t.len());
    assert(s =~= t);
}

proof fn lemma_order_prefix<A>(s: Seq<A>, t: Seq<A>, before: spec_fn(A, A) -> bool, n: nat)
    requires
        forall|x: A| #[trigger] s.contains(x) <==> t.contains(x),
        forall|x: A, y: A| #[trigger] before(x, y) ==> !before(y, x),
        in_order(s, before),
        in_order(t, before),
        n <= s.len(),
    ensures
        n <= t.len(),
        forall|k: int| 0 <= k < n ==> #[trigger] s[k] == t[k],
    decreases n,
{
    if n > 0 {
        lemma_order_prefix(s, t, before, (n - 1) as nat);
        let k = n - 1;
        let x = s[k];
        assert(s.contains(x));
        let j = choose|j: int| 0 <= j < t.len() && t[j] == x;
        if j < k {
            assert(s[j] == t[j]);
            assert(before(s[j], s[k]));
        }
        if j > k {
            let y = t[k];
            assert(t.contains(y));
            assert(s.contains(y));
            let i = choose|i: int| 0 <= i < s.len() && s[i] == y;
            assert(before(t[k], t[j]));
            if i < k {
                assert(s[i] == t[i]);
                assert(before(t[i], t[k]));
            } else if i > k {
                assert(before(s[k], s[i]));
            }
        }
    }
}

} // verus!
