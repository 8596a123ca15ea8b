//! The books balance: what is counted for the entries of a directory never
//! exceeds what is counted for the directory, so that a deletion takes off
//! exactly what was there.

use vstd::prelude::*;

use crate::rational::{lemma_quotient_add, lemma_quotient_sign, quotient};
use crate::tree::model::{
    child_of, credited, empty_tree, flagged, is_tree, live, no_counts, owned_below, placed_all,
    reduced, sampled, within, without, CountersView, NodeView, RatioView, TreeView,
};
use crate::tree::proofs::{
    grown, lemma_flagged, lemma_flagging_counts, lemma_hits_all, lemma_hits_bound,
    lemma_hits_monotone, lemma_live, lemma_placed_all, lemma_placing_all_counts, lemma_sampled_node,
    lemma_within_bound, lemma_within_linear, lemma_within_transitive,
};

verus! {

/// The counters that add up over the entries of a directory.
#[derive(Clone, Copy)]
pub enum Tally {
    Represented,
    Distributed,
    Exclusive,
    Compressed,
    Uncompressed,
}

/// What a counter says.
pub open spec fn tally(k: Tally, c: CountersView) -> real {
    match k {
        Tally::Represented => c.represented as real,
        Tally::Distributed => c.distributed,
        Tally::Exclusive => c.exclusive as real,
        Tally::Compressed => c.comp_samples as real,
        Tally::Uncompressed => c.uncompressed,
    }
}

/// The sum of `v` over the first `n` nodes that are listed below `p`.
pub open spec fn listed_sum(a: Seq<NodeView>, p: int, v: Seq<real>, n: nat) -> real
    decreases n,
{
    if n == 0 {
        0 as real
    } else {
        listed_sum(a, p, v, (n - 1) as nat) + (if child_of(a, p, n - 1) {
            v[n - 1]
        } else {
            0 as real
        })
    }
}

/// One counter of every node.
pub open spec fn tallies(a: Seq<NodeView>, k: Tally) -> Seq<real> {
    Seq::new(a.len(), |i: int| tally(k, a[i].c))
}

/// What the entries of `p` count together.
pub open spec fn below(a: Seq<NodeView>, p: int, k: Tally) -> real {
    listed_sum(a, p, tallies(a, k), a.len())
}

/// Whether no counter is negative and no directory counts less than its
/// entries do together.
pub open spec fn balanced(a: Seq<NodeView>) -> bool {
    &&& forall|i: int, k: Tally| 0 <= i < a.len() ==> #[trigger] tally(k, a[i].c) >= 0 as real
    &&& forall|p: int, k: Tally|
        0 <= p < a.len() ==> #[trigger] below(a, p, k) <= tally(k, a[p].c)
}

// ---- sums over the entries ----

proof fn lemma_sum_same(
    a: Seq<NodeView>,
    b: Seq<NodeView>,
    p: int,
    v: Seq<real>,
    w: Seq<real>,
    n: nat,
)
    requires
        forall|i: int|
            0 <= i < n ==> (if #[trigger] child_of(b, p, i) {
                w[i]
            } else {
                0 as real
            }) == (if child_of(a, p, i) {
                v[i]
            } else {
                0 as real
            }),
    ensures
        listed_sum(b, p, w, n) == listed_sum(a, p, v, n),
    decreases n,
{
    if n > 0 {
        lemma_sum_same(a, b, p, v, w, (n - 1) as nat);
        assert(child_of(b, p, n - 1) == child_of(b, p, n - 1));
    }
}

proof fn lemma_sum_zero(a: Seq<NodeView>, p: int, v: Seq<real>, from: nat, n: nat)
    requires
        from <= n,
        forall|i: int| from <= i < n && #[trigger] child_of(a, p, i) ==> v[i] == 0 as real,
    ensures
        listed_sum(a, p, v, n) == listed_sum(a, p, v, from),
    decreases n,
{
    if n > from {
        lemma_sum_zero(a, p, v, from, (n - 1) as nat);
        assert(child_of(a, p, n - 1) == child_of(a, p, n - 1));
    }
}

proof fn lemma_sum_add(a: Seq<NodeView>, p: int, u: Seq<real>, v: Seq<real>, w: Seq<real>, n: nat)
    requires
        forall|i: int| 0 <= i < n && #[trigger] child_of(a, p, i) ==> w[i] == u[i] + v[i],
    ensures
        listed_sum(a, p, w, n) == listed_sum(a, p, u, n) + listed_sum(a, p, v, n),
    decreases n,
{
    if n > 0 {
        lemma_sum_add(a, p, u, v, w, (n - 1) as nat);
        assert(child_of(a, p, n - 1) == child_of(a, p, n - 1));
    }
}

/// A sum with at most one term.
proof fn lemma_sum_single(a: Seq<NodeView>, p: int, v: Seq<real>, x: int, n: nat)
    requires
        forall|i: int| 0 <= i < n && i != x && #[trigger] child_of(a, p, i) ==> v[i] == 0 as real,
    ensures
        listed_sum(a, p, v, n) == (if 0 <= x < n && child_of(a, p, x) {
            v[x]
        } else {
            0 as real
        }),
    decreases n,
{
    if n > 0 {
        lemma_sum_single(a, p, v, x, (n - 1) as nat);
        assert(child_of(a, p, n - 1) == child_of(a, p, n - 1));
    }
}

proof fn lemma_sum_at_least(a: Seq<NodeView>, p: int, v: Seq<real>, x: int, n: nat)
    requires
        forall|i: int| 0 <= i < n ==> #[trigger] v[i] >= 0 as real,
    ensures
        listed_sum(a, p, v, n) >= 0 as real,
        0 <= x < n && child_of(a, p, x) ==> listed_sum(a, p, v, n) >= v[x],
    decreases n,
{
    if n > 0 {
        lemma_sum_at_least(a, p, v, x, (n - 1) as nat);
        assert(v[n - 1] >= 0 as real);
    }
}

/// The entry of `p` on the way down to `id`.
proof fn lemma_step_down(a: Seq<NodeView>, p: int, id: int) -> (c: int)
    requires
        is_tree(a),
        0 <= id < a.len(),
        within(a, p, id),
        p != id,
    ensures
        0 < c < a.len(),
        a[c].parent == Some(p),
        within(a, c, id),
    decreases id,
{
    let q = a[id].parent->0;
    if q == p {
        id
    } else {
        lemma_step_down(a, p, q)
    }
}

proof fn lemma_entry_within(a: Seq<NodeView>, p: int, c: int)
    requires
        is_tree(a),
        0 < c < a.len(),
        a[c].parent == Some(p),
    ensures
        0 <= p < c,
        within(a, p, c),
{
    assert(a[c].parent is Some);
    assert(within(a, p, p));
}

/// At most one entry of a directory holds a given node.
pub proof fn lemma_one_way_down(a: Seq<NodeView>, p: int, c: int, d: int, id: int)
    requires
        is_tree(a),
        0 <= id < a.len(),
        0 < c < a.len(),
        0 < d < a.len(),
        a[c].parent == Some(p),
        a[d].parent == Some(p),
        within(a, c, id),
        within(a, d, id),
    ensures
        c == d,
{
    lemma_within_linear(a, c, d, id);
    if c != d {
        if within(a, c, d) {
            lemma_within_bound(a, c, p);
        } else {
            lemma_within_bound(a, d, p);
        }
    }
}

// ---- one sample ----

/// `w` for the nodes that hold `leaf`, nothing for the others.
spec fn share(a: Seq<NodeView>, leaf: int, w: real) -> Seq<real> {
    Seq::new(
        a.len(),
        |i: int|
            if within(a, i, leaf) {
                w
            } else {
                0 as real
            },
    )
}

proof fn lemma_share_balanced(a: Seq<NodeView>, p: int, leaf: int, w: real)
    requires
        is_tree(a),
        0 <= leaf < a.len(),
        0 <= p < a.len(),
        w >= 0 as real,
    ensures
        listed_sum(a, p, share(a, leaf, w), a.len()) <= share(a, leaf, w)[p],
{
    let v = share(a, leaf, w);
    if within(a, p, leaf) && p != leaf {
        let c = lemma_step_down(a, p, leaf);
        assert forall|i: int| 0 <= i < a.len() && i != c && #[trigger] child_of(
            a,
            p,
            i,
        ) implies v[i] == 0 as real by {
            if within(a, i, leaf) {
                lemma_one_way_down(a, p, c, i, leaf);
            }
        }
        lemma_sum_single(a, p, v, c, a.len());
    } else {
        assert forall|i: int| 0 <= i < a.len() && #[trigger] child_of(a, p, i) implies v[i]
            == 0 as real by {
            if within(a, i, leaf) {
                lemma_entry_within(a, p, i);
                if p == leaf {
                    lemma_within_bound(a, i, leaf);
                } else {
                    lemma_within_transitive(a, p, i, leaf);
                }
            }
        }
        lemma_sum_zero(a, p, v, 0, a.len());
    }
}

/// Each node's part of a sample that splits over `m` owners.
spec fn parts(a: Seq<NodeView>, leaves: Seq<int>, m: int) -> Seq<real> {
    Seq::new(a.len(), |i: int| quotient(owned_below(a, i, leaves) as int, m))
}

proof fn lemma_parts_balanced(a: Seq<NodeView>, p: int, leaves: Seq<int>, m: int)
    requires
        is_tree(a),
        0 <= p < a.len(),
        m > 0,
        forall|i: int| 0 <= i < leaves.len() ==> 0 <= #[trigger] leaves[i] < a.len(),
    ensures
        listed_sum(a, p, parts(a, leaves, m), a.len()) <= parts(a, leaves, m)[p],
    decreases leaves.len(),
{
    let v = parts(a, leaves, m);
    if leaves.len() == 0 {
        assert forall|i: int| 0 <= i < a.len() && #[trigger] child_of(a, p, i) implies v[i]
            == 0 as real by {
            lemma_zero_over(m);
        }
        lemma_zero_over(m);
        lemma_sum_zero(a, p, v, 0, a.len());
    } else {
        let front = leaves.drop_last();
        assert forall|i: int| 0 <= i < front.len() implies 0 <= #[trigger] front[i] < a.len() by {
            assert(0 <= leaves[i] < a.len());
        }
        lemma_parts_balanced(a, p, front, m);
        let leaf = leaves.last();
        assert(0 <= leaves[leaves.len() - 1] < a.len());
        let w = quotient(1, m);
        lemma_quotient_sign(1, m);
        lemma_share_balanced(a, p, leaf, w);
        let u = parts(a, front, m);
        let s = share(a, leaf, w);
        assert forall|i: int| 0 <= i < a.len() implies #[trigger] v[i] == u[i] + s[i] by {
            lemma_quotient_add(owned_below(a, i, front) as int, 1, m);
        }
        lemma_sum_add(a, p, u, s, v, a.len());
    }
}

proof fn lemma_zero_over(m: int)
    requires
        m > 0,
    ensures
        quotient(0, m) == 0 as real,
{
    let d = m as real;
    assert(0 as real / d == 0 as real) by (nonlinear_arith)
        requires
            d > 0 as real,
    ;
}

/// A sample that is exclusive to an entry is exclusive to its directory.
proof fn lemma_exclusive_balanced(a: Seq<NodeView>, p: int, leaves: Seq<int>)
    requires
        is_tree(a),
        0 <= p < a.len(),
        leaves.len() > 0,
        forall|i: int| 0 <= i < leaves.len() ==> 0 <= #[trigger] leaves[i] < a.len(),
    ensures
        listed_sum(a, p, wholes(a, leaves), a.len()) <= wholes(a, leaves)[p],
{
    let v = wholes(a, leaves);
    assert(0 <= leaves[0] < a.len());
    if exists|c: int| #[trigger] child_of(a, p, c) && v[c] == 1 as real {
        let c = choose|c: int| #[trigger] child_of(a, p, c) && v[c] == 1 as real;
        lemma_hits_all(a, c, leaves);
        assert(within(a, c, leaves[0]));
        lemma_entry_within(a, p, c);
        lemma_hits_monotone(a, p, c, leaves);
        lemma_hits_bound(a, p, leaves);
        assert forall|i: int| 0 <= i < a.len() && i != c && #[trigger] child_of(
            a,
            p,
            i,
        ) implies v[i] == 0 as real by {
            lemma_hits_all(a, i, leaves);
            if owned_below(a, i, leaves) == leaves.len() {
                assert(within(a, i, leaves[0]));
                lemma_one_way_down(a, p, c, i, leaves[0]);
            }
        }
        lemma_sum_single(a, p, v, c, a.len());
    } else {
        assert forall|i: int| 0 <= i < a.len() && #[trigger] child_of(a, p, i) implies v[i]
            == 0 as real by {}
        lemma_sum_zero(a, p, v, 0, a.len());
    }
}

/// One for the nodes that hold all of `leaves`, nothing for the others.
spec fn wholes(a: Seq<NodeView>, leaves: Seq<int>) -> Seq<real> {
    Seq::new(
        a.len(),
        |i: int|
            if owned_below(a, i, leaves) == leaves.len() {
                1 as real
            } else {
                0 as real
            },
    )
}

/// What a sample adds to one counter of every node.
spec fn gains(a: Seq<NodeView>, leaves: Seq<int>, ratio: Option<RatioView>, k: Tally) -> Seq<real> {
    match k {
        Tally::Represented => share(a, leaves[0], 1 as real),
        Tally::Distributed => parts(a, leaves, leaves.len() as int),
        Tally::Exclusive => wholes(a, leaves),
        Tally::Compressed => share(
            a,
            leaves[0],
            if ratio is Some {
                1 as real
            } else {
                0 as real
            },
        ),
        Tally::Uncompressed => share(
            a,
            leaves[0],
            if ratio is Some {
                quotient(ratio->0.ram as int, ratio->0.disk as int)
            } else {
                0 as real
            },
        ),
    }
}

proof fn lemma_gain(
    a: Seq<NodeView>,
    leaves: Seq<int>,
    ratio: Option<RatioView>,
    k: Tally,
    i: int,
)
    requires
        0 <= i < a.len(),
        leaves.len() > 0,
        ratio matches Some(r) ==> r.disk > 0,
    ensures
        tally(
            k,
            credited(
                a[i].c,
                owned_below(a, i, leaves),
                leaves.len(),
                within(a, i, leaves[0]),
                ratio,
            ),
        ) == tally(k, a[i].c) + gains(a, leaves, ratio, k)[i],
        gains(a, leaves, ratio, k)[i] >= 0 as real,
{
    lemma_quotient_sign(owned_below(a, i, leaves) as int, leaves.len() as int);
    if ratio is Some {
        lemma_quotient_sign(ratio->0.ram as int, ratio->0.disk as int);
    }
}

proof fn lemma_gains_balanced(
    a: Seq<NodeView>,
    p: int,
    leaves: Seq<int>,
    ratio: Option<RatioView>,
    k: Tally,
)
    requires
        is_tree(a),
        0 <= p < a.len(),
        leaves.len() > 0,
        ratio matches Some(r) ==> r.disk > 0,
        forall|i: int| 0 <= i < leaves.len() ==> 0 <= #[trigger] leaves[i] < a.len(),
    ensures
        listed_sum(a, p, gains(a, leaves, ratio, k), a.len()) <= gains(a, leaves, ratio, k)[p],
{
    assert(0 <= leaves[0] < a.len());
    match k {
        Tally::Represented => lemma_share_balanced(a, p, leaves[0], 1 as real),
        Tally::Distributed => lemma_parts_balanced(a, p, leaves, leaves.len() as int),
        Tally::Exclusive => lemma_exclusive_balanced(a, p, leaves),
        Tally::Compressed => {
            lemma_share_balanced(
                a,
                p,
                leaves[0],
                if ratio is Some {
                    1 as real
                } else {
                    0 as real
                },
            );
        },
        Tally::Uncompressed => {
            if ratio is Some {
                lemma_quotient_sign(ratio->0.ram as int, ratio->0.disk as int);
                lemma_share_balanced(
                    a,
                    p,
                    leaves[0],
                    quotient(ratio->0.ram as int, ratio->0.disk as int),
                );
            } else {
                lemma_share_balanced(a, p, leaves[0], 0 as real);
            }
        },
    }
}

/// Adding nodes that count nothing keeps the balance.
proof fn lemma_grown_balanced(a: Seq<NodeView>, b: Seq<NodeView>)
    requires
        is_tree(a),
        is_tree(b),
        balanced(a),
        grown(a, b),
        forall|i: int| 0 <= i < a.len() ==> (#[trigger] b[i]).c == a[i].c,
        forall|i: int| a.len() <= i < b.len() ==> (#[trigger] b[i]).c == no_counts(),
    ensures
        balanced(b),
{
    assert forall|i: int, k: Tally| 0 <= i < b.len() implies #[trigger] tally(k, b[i].c)
        >= 0 as real by {
        if i < a.len() {
            assert(tally(k, a[i].c) >= 0 as real);
        }
    }
    assert forall|p: int, k: Tally| 0 <= p < b.len() implies #[trigger] below(b, p, k) <= tally(
        k,
        b[p].c,
    ) by {
        let v = tallies(a, k);
        let w = tallies(b, k);
        lemma_sum_zero(b, p, w, a.len(), b.len());
        if p < a.len() {
            lemma_sum_same(a, b, p, v, w, a.len());
            assert(below(a, p, k) <= tally(k, a[p].c));
        } else {
            assert forall|i: int| 0 <= i < a.len() && #[trigger] child_of(b, p, i) implies w[i]
                == 0 as real by {
                assert(b[i].parent is Some);
                assert(b[i].parent->0 < i);
            }
            lemma_sum_zero(b, p, w, 0, a.len());
            assert(listed_sum(b, p, w, 0) == 0 as real);
        }
    }
}

/// The books of an empty tree balance, and a sample keeps them balanced.
pub proof fn law_samples_keep_the_balance(
    t: TreeView,
    owners: Seq<Seq<char>>,
    subvols: Seq<Seq<char>>,
    ratio: Option<RatioView>,
)
    requires
        is_tree(t.nodes),
        ratio matches Some(r) ==> r.disk > 0,
    ensures
        balanced(empty_tree().nodes),
        balanced(t.nodes) ==> balanced(sampled(t, owners, subvols, ratio).nodes),
{
    let e = empty_tree().nodes;
    assert forall|p: int, k: Tally| 0 <= p < e.len() implies #[trigger] below(e, p, k) <= tally(
        k,
        e[p].c,
    ) by {
        lemma_sum_zero(e, p, tallies(e, k), 0, e.len());
    }
    if balanced(t.nodes) && owners.len() > 0 {
        lemma_sampled_node(t, owners, subvols, ratio);
        lemma_flagged(t.nodes, subvols);
        lemma_flagging_counts(t.nodes, subvols);
        let f = flagged(t.nodes, subvols);
        lemma_placed_all(f, owners);
        lemma_placing_all_counts(f, owners);
        lemma_grown_balanced(t.nodes, f);
        let (a, leaves) = placed_all(f, owners);
        lemma_grown_balanced(f, a);
        let b = sampled(t, owners, subvols, ratio).nodes;
        assert forall|i: int, k: Tally| 0 <= i < b.len() implies #[trigger] tally(k, b[i].c)
            >= 0 as real && tally(k, b[i].c) == tally(k, a[i].c) + gains(
            a,
            leaves,
            ratio,
            k,
        )[i] by {
            lemma_gain(a, leaves, ratio, k, i);
            assert(tally(k, a[i].c) >= 0 as real);
        }
        assert forall|p: int, k: Tally| 0 <= p < b.len() implies #[trigger] below(b, p, k)
            <= tally(k, b[p].c) by {
            let u = tallies(a, k);
            let g = gains(a, leaves, ratio, k);
            let w = tallies(b, k);
            assert forall|i: int| 0 <= i < a.len() && #[trigger] child_of(a, p, i) implies w[i]
                == u[i] + g[i] by {
                assert(tally(k, b[i].c) == tally(k, a[i].c) + g[i]);
            }
            lemma_sum_add(a, p, u, g, w, a.len());
            lemma_sum_same(a, b, p, w, w, a.len());
            lemma_gains_balanced(a, p, leaves, ratio, k);
            assert(below(a, p, k) <= tally(k, a[p].c));
            assert(tally(k, b[p].c) == tally(k, a[p].c) + g[p]);
        }
    }
}

// ---- removal ----

/// A node counts no more than anything above it.
proof fn lemma_above_counts_more(a: Seq<NodeView>, x: int, id: int, k: Tally)
    requires
        is_tree(a),
        balanced(a),
        0 <= id < a.len(),
        live(a, id),
        within(a, x, id),
    ensures
        0 <= x < a.len(),
        tally(k, a[id].c) <= tally(k, a[x].c),
    decreases id,
{
    if x != id {
        let p = a[id].parent->0;
        lemma_above_counts_more(a, x, p, k);
        let v = tallies(a, k);
        assert forall|i: int| 0 <= i < a.len() implies #[trigger] v[i] >= 0 as real by {
            assert(tally(k, a[i].c) >= 0 as real);
        }
        lemma_sum_at_least(a, p, v, id, a.len());
        assert(child_of(a, p, id));
        assert(below(a, p, k) <= tally(k, a[p].c));
    } else {
        assert(tally(k, a[id].c) >= 0 as real);
    }
}

/// Where the books balance, a removal takes from every directory above exactly
/// what the removed entry counted, but for samples that it shares, and the
/// books balance afterwards.
pub proof fn law_removal_keeps_the_balance(a: Seq<NodeView>, id: int, x: int, k: Tally)
    requires
        is_tree(a),
        balanced(a),
        0 < id < a.len(),
        live(a, id),
        0 <= x < a.len(),
    ensures
        balanced(without(a, id)),
        tally(k, without(a, id)[x].c) == (if x != id && within(a, x, id) {
            tally(k, a[x].c) - tally(k, a[id].c)
        } else {
            tally(k, a[x].c)
        }),
{
    let b = without(a, id);
    assert forall|i: int, j: Tally| 0 <= i < b.len() implies #[trigger] tally(j, b[i].c)
        >= 0 as real && tally(j, b[i].c) == (if i != id && within(a, i, id) {
        tally(j, a[i].c) - tally(j, a[id].c)
    } else {
        tally(j, a[i].c)
    }) by {
        assert(tally(j, a[i].c) >= 0 as real);
        if i != id && within(a, i, id) {
            lemma_above_counts_more(a, i, id, j);
            assert(b[i].c == reduced(a[i].c, a[id].c));
        }
    }
    assert(tally(k, b[x].c) >= 0 as real);
    assert forall|p: int, j: Tally| 0 <= p < b.len() implies #[trigger] below(b, p, j) <= tally(
        j,
        b[p].c,
    ) by {
        lemma_removal_balances(a, id, p, j);
        assert(tally(j, b[p].c) >= 0 as real);
    }
}

proof fn lemma_removal_balances(a: Seq<NodeView>, id: int, p: int, k: Tally)
    requires
        is_tree(a),
        balanced(a),
        0 < id < a.len(),
        live(a, id),
        0 <= p < a.len(),
        forall|i: int, j: Tally|
            0 <= i < a.len() ==> #[trigger] tally(j, without(a, id)[i].c) == (if i != id && within(
                a,
                i,
                id,
            ) {
                tally(j, a[i].c) - tally(j, a[id].c)
            } else {
                tally(j, a[i].c)
            }),
    ensures
        below(without(a, id), p, k) <= tally(k, without(a, id)[p].c),
{
    let b = without(a, id);
    let v = tallies(a, k);
    let w = tallies(b, k);
    assert(below(a, p, k) <= tally(k, a[p].c));
    assert(tally(k, b[p].c) == tally(k, b[p].c));
    if within(a, p, id) && p != id {
        let c = lemma_step_down(a, p, id);
        lemma_live(a, id);
        assert(!a[c].removed);
        assert(child_of(a, p, c));
        // What stays of each entry, and what goes.
        let gone = Seq::new(
            a.len(),
            |i: int|
                if i == c {
                    tally(k, a[id].c)
                } else {
                    0 as real
                },
        );
        let left = Seq::new(a.len(), |i: int| v[i] - gone[i]);
        lemma_sum_add(a, p, left, gone, v, a.len());
        lemma_sum_single(a, p, gone, c, a.len());
        assert forall|i: int| 0 <= i < a.len() implies (if #[trigger] child_of(b, p, i) {
            w[i]
        } else {
            0 as real
        }) == (if child_of(a, p, i) {
            left[i]
        } else {
            0 as real
        }) by {
            assert(tally(k, b[i].c) == tally(k, b[i].c));
            if child_of(a, p, i) && i != c && within(a, i, id) {
                lemma_one_way_down(a, p, c, i, id);
            }
        }
        lemma_sum_same(a, b, p, left, w, a.len());
    } else {
        assert forall|i: int| 0 <= i < a.len() implies (if #[trigger] child_of(b, p, i) {
            w[i]
        } else {
            0 as real
        }) == (if child_of(a, p, i) {
            v[i]
        } else {
            0 as real
        }) by {
            assert(tally(k, b[i].c) == tally(k, b[i].c));
            if child_of(a, p, i) {
                lemma_entry_within(a, p, i);
                if within(a, i, id) {
                    if p == id {
                        lemma_within_bound(a, i, id);
                    } else {
                        lemma_within_transitive(a, p, i, id);
                    }
                }
            }
        }
        lemma_sum_same(a, b, p, v, w, a.len());
    }
}

} // verus!
