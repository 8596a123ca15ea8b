//! What samples and removals do to each node, by what the samples mean.

use vstd::prelude::*;

use crate::rational::quotient;
use crate::text::components;
use crate::tree::laws::{
    law_live_node_is_found, law_placed_path_is_found, law_sample_is_found, lemma_still_found,
    owner_nodes,
};
use crate::tree::model::{
    attached, can_take, co_owners, counted, credited, empty_tree, flagged, fresh, holds_subvol,
    is_tree, live, measured, no_counts, noted, owned_below, path, placed, placed_all, resolve,
    sampled, shared_among, within, without, CountersView, NodeView, RatioView, TreeView,
};
use crate::tree::proofs::{
    lemma_flag_keeps, lemma_flagged, lemma_flagging_counts, lemma_placed, lemma_placed_all,
    lemma_placing_all_counts, lemma_placing_counts, lemma_sampled_node, lemma_within_shape,
};

verus! {

// ---- removal ----

/// Removing a live entry takes each of its counts off every directory above it, but
/// never below zero. It takes them off nothing else, and what it removes keeps its
/// own. Names, places, flags and sharers stay, and only the entry itself is detached.
pub proof fn law_removal_takes_the_counts_off_what_is_above(a: Seq<NodeView>, id: int, x: int)
    requires
        is_tree(a),
        0 < id < a.len(),
        live(a, id),
        0 <= x < a.len(),
    ensures
        ({
            let gone = a[id].c;
            let was = a[x];
            let now = without(a, id)[x];
            &&& without(a, id).len() == a.len()
            &&& x != id && within(a, x, id) ==> {
                &&& was.c.represented >= gone.represented ==> now.c.represented + gone.represented
                    == was.c.represented
                &&& was.c.represented <= gone.represented ==> now.c.represented == 0
                &&& was.c.distributed >= gone.distributed ==> now.c.distributed + gone.distributed
                    == was.c.distributed
                &&& was.c.distributed <= gone.distributed ==> now.c.distributed == 0 as real
                &&& was.c.exclusive >= gone.exclusive ==> now.c.exclusive + gone.exclusive
                    == was.c.exclusive
                &&& was.c.exclusive <= gone.exclusive ==> now.c.exclusive == 0
                &&& was.c.shared >= gone.shared ==> now.c.shared + gone.shared == was.c.shared
                &&& was.c.shared <= gone.shared ==> now.c.shared == 0
                &&& was.c.comp_samples >= gone.comp_samples ==> now.c.comp_samples
                    + gone.comp_samples == was.c.comp_samples
                &&& was.c.comp_samples <= gone.comp_samples ==> now.c.comp_samples == 0
                &&& was.c.uncompressed >= gone.uncompressed ==> now.c.uncompressed
                    + gone.uncompressed == was.c.uncompressed
                &&& was.c.uncompressed <= gone.uncompressed ==> now.c.uncompressed == 0 as real
            }
            &&& x == id || !within(a, x, id) ==> now.c == was.c
            &&& now.name == was.name && now.parent == was.parent && now.subvol == was.subvol
                && now.sharers == was.sharers
            &&& now.removed == (was.removed || x == id)
        }),
{
}

/// Removing the root, or what is no longer there, changes nothing.
pub proof fn law_only_live_entries_are_removed(a: Seq<NodeView>, id: int)
    requires
        is_tree(a),
        0 <= id < a.len(),
        id == 0 || !live(a, id),
    ensures
        without(a, id) == a,
{
}

// ---- shares and compression ----

proof fn lemma_hits_are_counted(a: Seq<NodeView>, b: Seq<NodeView>, x: int, leaves: Seq<int>)
    requires
        forall|i: int|
            0 <= i < leaves.len() ==> within(a, x, #[trigger] leaves[i]) == within(
                b,
                x,
                leaves[i],
            ),
    ensures
        owned_below(a, x, leaves) == leaves.filter(|l: int| within(b, x, l)).len(),
    decreases leaves.len(),
{
    reveal(Seq::filter);
    if leaves.len() > 0 {
        let front = leaves.drop_last();
        assert forall|i: int| 0 <= i < front.len() implies within(a, x, #[trigger] front[i])
            == within(b, x, front[i]) by {
            assert(front[i] == leaves[i]);
        }
        lemma_hits_are_counted(a, b, x, front);
        assert(leaves[leaves.len() - 1] == leaves.last());
    }
}

/// A sample gives each of its owners the same share, so that a node's distributed
/// count grows by the part of the owners that lies in its subtree. A sample of known
/// compression adds its ratio where its canonical owner, the first, lies, and
/// nowhere else. One of unknown compression adds none.
pub proof fn law_sample_spreads_over_its_owners(
    t: TreeView,
    owners: Seq<Seq<char>>,
    subvols: Seq<Seq<char>>,
    ratio: Option<RatioView>,
    id: int,
)
    requires
        is_tree(t.nodes),
        owners.len() > 0,
        0 <= id < sampled(t, owners, subvols, ratio).nodes.len(),
    ensures
        ({
            let was = if id < t.nodes.len() {
                t.nodes[id].c
            } else {
                no_counts()
            };
            let after = sampled(t, owners, subvols, ratio).nodes;
            let now = after[id].c;
            let leaves = owner_nodes(t, owners, subvols);
            let here = leaves.filter(|l: int| within(after, id, l));
            &&& (now.distributed - was.distributed) * (owners.len() as real) == here.len() as real
            &&& ratio is None || !within(after, id, leaves[0]) ==> now.comp_samples
                == was.comp_samples && now.uncompressed == was.uncompressed
            &&& ratio matches Some(r) ==> within(after, id, leaves[0]) ==> {
                &&& now.comp_samples == was.comp_samples + 1
                &&& r.disk > 0 ==> (now.uncompressed - was.uncompressed) * (r.disk as real)
                    == r.ram as real
            }
        }),
{
    lemma_sampled_node(t, owners, subvols, ratio);
    lemma_flagging_counts(t.nodes, subvols);
    lemma_flagged(t.nodes, subvols);
    let f = flagged(t.nodes, subvols);
    lemma_placing_all_counts(f, owners);
    lemma_placed_all(f, owners);
    let (a, leaves) = placed_all(f, owners);
    let b = sampled(t, owners, subvols, ratio).nodes;
    if id < f.len() {
        assert(a[id] == f[id]);
    }
    assert(a[id].c == (if id < t.nodes.len() {
        t.nodes[id].c
    } else {
        no_counts()
    }));
    assert forall|i: int| 0 <= i < leaves.len() implies within(a, id, #[trigger] leaves[i])
        == within(b, id, leaves[i]) by {
        lemma_within_shape(a, b, id, leaves[i]);
    }
    lemma_hits_are_counted(a, b, id, leaves);
    let h = owned_below(a, id, leaves);
    assert(b[id].c == b[id].c);
    assert(0 <= leaves[0] < a.len());
    lemma_quotient_undone(h as int, leaves.len() as int);
    if let Some(r) = ratio {
        if r.disk > 0 {
            lemma_quotient_undone(r.ram as int, r.disk as int);
        }
    }
    assert(b[id].c.distributed - a[id].c.distributed == quotient(h as int, leaves.len() as int));
}

proof fn lemma_quotient_undone(n: int, d: int)
    requires
        d > 0,
    ensures
        quotient(n, d) * (d as real) == n as real,
{
    let (x, y) = (n as real, d as real);
    assert((x / y) * y == x) by (nonlinear_arith)
        requires
            y > 0 as real,
    ;
}

/// A sample counts as one, whatever it holds; one without owners counts as none and
/// leaves the tree as it is.
pub proof fn law_samples_are_counted(
    t: TreeView,
    owners: Seq<Seq<char>>,
    subvols: Seq<Seq<char>>,
    ratio: Option<RatioView>,
)
    ensures
        owners.len() > 0 ==> sampled(t, owners, subvols, ratio).total_samples == t.total_samples
            + 1,
        owners.len() == 0 ==> sampled(t, owners, subvols, ratio) == t,
{
}

// ---- places ----

/// Of live entries, one lies in the subtree of another exactly when its path starts
/// with the other's.
pub proof fn law_subtrees_go_by_paths(a: Seq<NodeView>, x: int, id: int)
    requires
        is_tree(a),
        0 <= x < a.len(),
        0 <= id < a.len(),
        live(a, x),
        live(a, id),
    ensures
        within(a, x, id) <==> path(a, x).is_prefix_of(path(a, id)),
    decreases id,
{
    if x == id {
        assert(path(a, x).is_prefix_of(path(a, id)));
    } else {
        law_live_node_is_found(a, x);
        law_live_node_is_found(a, id);
        if path(a, x).len() == path(a, id).len() && path(a, x).is_prefix_of(path(a, id)) {
            assert(path(a, x) =~= path(a, id));
        }
        if id > 0 {
            let p = a[id].parent->0;
            law_subtrees_go_by_paths(a, x, p);
            let (up, down) = (path(a, p), path(a, id));
            assert(down == up.push(a[id].name));
            assert(down.take(up.len() as int) =~= up);
            let y = path(a, x);
            if y.is_prefix_of(down) {
                assert(y.len() < down.len());
                assert(up.take(y.len() as int) =~= down.take(y.len() as int));
            }
            if y.is_prefix_of(up) {
                assert(up.take(y.len() as int) =~= down.take(y.len() as int));
            }
        }
    }
}

/// What is listed, directly or not, below a live entry is what is live in its
/// subtree.
pub proof fn law_listed_below_is_live_below(a: Seq<NodeView>, id: int, d: int)
    requires
        is_tree(a),
        0 <= id < a.len(),
        0 <= d < a.len(),
        live(a, id),
    ensures
        attached(a, id, d) <==> within(a, id, d) && live(a, d),
    decreases d,
{
    if d != id && d > 0 {
        law_listed_below_is_live_below(a, id, a[d].parent->0);
    }
}

/// A sample flags the nodes that its subvolumes' paths lead to, and no other.
pub proof fn law_sample_flags_its_subvolumes(
    t: TreeView,
    owners: Seq<Seq<char>>,
    subvols: Seq<Seq<char>>,
    ratio: Option<RatioView>,
    id: int,
)
    requires
        is_tree(t.nodes),
        owners.len() > 0,
        0 <= id < sampled(t, owners, subvols, ratio).nodes.len(),
    ensures
        ({
            let after = sampled(t, owners, subvols, ratio).nodes;
            after[id].subvol <==> {
                ||| id < t.nodes.len() && t.nodes[id].subvol
                ||| exists|k: int|
                    0 <= k < subvols.len() && resolve(after, components(#[trigger] subvols[k]))
                        == Some(id)
            }
        }),
{
    let after = sampled(t, owners, subvols, ratio).nodes;
    law_sample_is_found(t, owners, subvols, ratio, Seq::empty());
    lemma_sampled_node(t, owners, subvols, ratio);
    lemma_flagging_counts(t.nodes, subvols);
    lemma_flagged(t.nodes, subvols);
    let f = flagged(t.nodes, subvols);
    lemma_placing_all_counts(f, owners);
    lemma_placed_all(f, owners);
    let a = placed_all(f, owners).0;
    assert(after[id].subvol == a[id].subvol);
    lemma_placed_all_unflagged(f, owners);
    if id < f.len() {
        assert(a[id] == f[id]);
        if f[id].subvol {
            lemma_flags_have_reasons(t.nodes, subvols, id);
            if !(id < t.nodes.len() && t.nodes[id].subvol) {
                let k = choose|k: int|
                    0 <= k < subvols.len() && resolve(f, components(#[trigger] subvols[k]))
                        == Some(id);
                lemma_still_found(f, a, components(subvols[k]));
                lemma_still_found(a, after, components(subvols[k]));
                assert(resolve(after, components(subvols[k])) == Some(id));
            }
        }
    }
    if id < t.nodes.len() && t.nodes[id].subvol {
        assert(f[id].subvol);
    }
}

/// New nodes are not flagged.
proof fn lemma_placed_unflagged(a: Seq<NodeView>, names: Seq<Seq<char>>)
    requires
        is_tree(a),
    ensures
        forall|i: int|
            a.len() <= i < placed(a, names).0.len() ==> !(#[trigger] placed(a, names).0[i]).subvol,
    decreases names.len(),
{
    if names.len() > 0 {
        lemma_placed_unflagged(a, names.drop_last());
        let b = placed(a, names.drop_last()).0;
        let c = placed(a, names).0;
        assert forall|i: int| a.len() <= i < c.len() implies !(#[trigger] c[i]).subvol by {
            if i < b.len() {
                assert(c[i] == b[i]);
            }
        }
    }
}

proof fn lemma_placed_all_unflagged(a: Seq<NodeView>, paths: Seq<Seq<char>>)
    requires
        is_tree(a),
    ensures
        forall|i: int|
            a.len() <= i < placed_all(a, paths).0.len() ==> !(#[trigger] placed_all(
                a,
                paths,
            ).0[i]).subvol,
    decreases paths.len(),
{
    if paths.len() > 0 {
        lemma_placed_all_unflagged(a, paths.drop_last());
        lemma_placed_all(a, paths.drop_last());
        let b = placed_all(a, paths.drop_last()).0;
        let c = placed_all(a, paths).0;
        lemma_placed_unflagged(b, components(paths.last()));
        lemma_placing_counts(b, components(paths.last()));
        assert forall|i: int| a.len() <= i < c.len() implies !(#[trigger] c[i]).subvol by {
            if i < b.len() {
                assert(c[i] == b[i]);
            }
        }
    }
}

/// A flag is an old one, or that of one of the subvolumes.
proof fn lemma_flags_have_reasons(a: Seq<NodeView>, subvols: Seq<Seq<char>>, id: int)
    requires
        is_tree(a),
        0 <= id < flagged(a, subvols).len(),
        flagged(a, subvols)[id].subvol,
    ensures
        id < a.len() && a[id].subvol || exists|k: int|
            0 <= k < subvols.len() && resolve(
                flagged(a, subvols),
                components(#[trigger] subvols[k]),
            ) == Some(id),
    decreases subvols.len(),
{
    if subvols.len() > 0 {
        let front = subvols.drop_last();
        lemma_flagged(a, front);
        lemma_flagged(a, subvols);
        let b = flagged(a, front);
        let names = components(subvols.last());
        let (c, at) = placed(b, names);
        let d = flagged(a, subvols);
        lemma_placed(b, names);
        lemma_placed_unflagged(b, names);
        lemma_placing_counts(b, names);
        lemma_flag_keeps(c, at, NodeView { subvol: true, ..c[at] });
        if id == at {
            law_placed_path_is_found(b, names, names);
            lemma_still_found(c, d, names);
            assert(resolve(d, components(subvols[subvols.len() - 1])) == Some(id));
        } else {
            assert(c[id].subvol);
            assert(id < b.len());
            assert(c[id] == b[id]);
            lemma_flags_have_reasons(a, front, id);
            if !(id < a.len() && a[id].subvol) {
                let k = choose|k: int|
                    0 <= k < front.len() && resolve(b, components(#[trigger] front[k])) == Some(
                        id,
                    );
                law_placed_path_is_found(b, names, components(front[k]));
                lemma_still_found(c, d, components(front[k]));
                assert(front[k] == subvols[k]);
                assert(resolve(d, components(subvols[k])) == Some(id));
            }
        }
    }
}

// ---- sharers ----

/// An owner's co-owners are the other owners, in their order and without the owner
/// itself, at most five of them.
pub proof fn law_co_owners_are_the_others(owners: Seq<Seq<char>>, i: int, k: int)
    requires
        0 <= i < owners.len(),
    ensures
        co_owners(owners, i).len() <= 5,
        co_owners(owners, i).len() < owners.len(),
        owners.len() <= 6 ==> co_owners(owners, i).len() == owners.len() - 1,
        owners.len() > 6 ==> co_owners(owners, i).len() == 5,
        0 <= k < co_owners(owners, i).len() && k < i ==> co_owners(owners, i)[k] == owners[k],
        i <= k < co_owners(owners, i).len() ==> co_owners(owners, i)[k] == owners[k + 1],
{
}

/// A sharer that is known already changes nothing; a new one comes last, and only
/// where there are five does another, the one noted longest ago, make room for it.
/// Sharers that are noted of a node without any are just those.
pub proof fn law_new_sharers_come_last(
    sharers: Seq<Seq<char>>,
    name: Seq<char>,
    others: Seq<Seq<char>>,
)
    ensures
        sharers.contains(name) ==> noted(sharers, seq![name]) == sharers,
        !sharers.contains(name) && sharers.len() != 5 ==> noted(sharers, seq![name])
            == sharers.push(name),
        !sharers.contains(name) && sharers.len() == 5 ==> noted(sharers, seq![name])
            == sharers.remove(0).push(name),
        noted(sharers, others.push(name)) == noted(noted(sharers, others), seq![name]),
        others.len() <= 5 && others.no_duplicates() ==> noted(Seq::empty(), others) == others,
    decreases others.len(),
{
    reveal_with_fuel(noted, 2);
    assert(seq![name].drop_last() =~= Seq::<Seq<char>>::empty());
    assert(others.push(name).drop_last() =~= others);
    assert(sharers.remove(0) =~= sharers.drop_first() || sharers.len() == 0);
    if others.len() > 0 && others.len() <= 5 && others.no_duplicates() {
        let front = others.drop_last();
        law_new_sharers_come_last(sharers, name, front);
        assert(front.push(others.last()) =~= others);
        if front.contains(others.last()) {
            let j = choose|j: int| 0 <= j < front.len() && front[j] == others.last();
            assert(others[j] == others[others.len() - 1]);
        }
    }
}

/// Only the owners note sharers: a node that owns nothing of a sample keeps those
/// that it had, and one that owns it alone gains none. One that owns it at one place
/// in the list of owners notes the others.
pub proof fn law_owners_note_each_other(
    a: Seq<NodeView>,
    leaves: Seq<int>,
    owners: Seq<Seq<char>>,
    id: int,
    i: int,
)
    requires
        leaves.len() == owners.len(),
        0 <= id < a.len(),
        forall|k: int| 0 <= k < leaves.len() ==> 0 <= #[trigger] leaves[k] < a.len(),
    ensures
        ({
            let now = shared_among(a, leaves, owners, owners.len())[id];
            &&& now == (NodeView { sharers: now.sharers, ..a[id] })
            &&& !leaves.contains(id) ==> now.sharers == a[id].sharers
            &&& owners.len() <= 1 ==> now.sharers == a[id].sharers
            &&& 0 <= i < leaves.len() && leaves[i] == id && (forall|k: int|
                0 <= k < leaves.len() && k != i ==> #[trigger] leaves[k] != id) ==> now.sharers
                == noted(a[id].sharers, co_owners(owners, i))
        }),
{
    lemma_sharers_noted(a, leaves, owners, id, i, owners.len());
}

/// After a sample each node has the sharers that it had, and each owner's node those
/// of them that are left together with the other owners.
pub proof fn law_sample_notes_its_sharers(
    t: TreeView,
    owners: Seq<Seq<char>>,
    subvols: Seq<Seq<char>>,
    ratio: Option<RatioView>,
    id: int,
    i: int,
)
    requires
        is_tree(t.nodes),
        owners.len() > 0,
        0 <= id < sampled(t, owners, subvols, ratio).nodes.len(),
    ensures
        ({
            let was = if id < t.nodes.len() {
                t.nodes[id].sharers
            } else {
                Seq::empty()
            };
            let now = sampled(t, owners, subvols, ratio).nodes[id].sharers;
            let leaves = owner_nodes(t, owners, subvols);
            &&& !leaves.contains(id) ==> now == was
            &&& owners.len() == 1 ==> now == was
            &&& 0 <= i < leaves.len() && leaves[i] == id && (forall|k: int|
                0 <= k < leaves.len() && k != i ==> #[trigger] leaves[k] != id) ==> now == noted(
                was,
                co_owners(owners, i),
            )
        }),
{
    lemma_sampled_node(t, owners, subvols, ratio);
    lemma_flagged(t.nodes, subvols);
    lemma_flagged_sharers(t.nodes, subvols);
    let f = flagged(t.nodes, subvols);
    lemma_placing_all_counts(f, owners);
    lemma_placed_all_sharers(f, owners);
    lemma_placed_all(f, owners);
    let (a, leaves) = placed_all(f, owners);
    if id < f.len() {
        assert(a[id] == f[id]);
    }
    law_owners_note_each_other(counted(a, leaves, ratio), leaves, owners, id, i);
}

proof fn lemma_placed_sharers(a: Seq<NodeView>, names: Seq<Seq<char>>)
    requires
        is_tree(a),
    ensures
        forall|i: int|
            a.len() <= i < placed(a, names).0.len() ==> (#[trigger] placed(
                a,
                names,
            ).0[i]).sharers == Seq::<Seq<char>>::empty(),
    decreases names.len(),
{
    if names.len() > 0 {
        lemma_placed_sharers(a, names.drop_last());
        let b = placed(a, names.drop_last()).0;
        let c = placed(a, names).0;
        assert forall|i: int| a.len() <= i < c.len() implies (#[trigger] c[i]).sharers
            == Seq::<Seq<char>>::empty() by {
            if i < b.len() {
                assert(c[i] == b[i]);
            }
        }
    }
}

proof fn lemma_placed_all_sharers(a: Seq<NodeView>, paths: Seq<Seq<char>>)
    requires
        is_tree(a),
    ensures
        forall|i: int|
            a.len() <= i < placed_all(a, paths).0.len() ==> (#[trigger] placed_all(
                a,
                paths,
            ).0[i]).sharers == Seq::<Seq<char>>::empty(),
    decreases paths.len(),
{
    if paths.len() > 0 {
        lemma_placed_all_sharers(a, paths.drop_last());
        lemma_placed_all(a, paths.drop_last());
        let b = placed_all(a, paths.drop_last()).0;
        let c = placed_all(a, paths).0;
        lemma_placed_sharers(b, components(paths.last()));
        lemma_placing_counts(b, components(paths.last()));
        assert forall|i: int| a.len() <= i < c.len() implies (#[trigger] c[i]).sharers
            == Seq::<Seq<char>>::empty() by {
            if i < b.len() {
                assert(c[i] == b[i]);
            }
        }
    }
}

proof fn lemma_flagged_sharers(a: Seq<NodeView>, subvols: Seq<Seq<char>>)
    requires
        is_tree(a),
    ensures
        forall|i: int|
            0 <= i < flagged(a, subvols).len() ==> (#[trigger] flagged(a, subvols)[i]).sharers
                == (if i < a.len() {
                a[i].sharers
            } else {
                Seq::empty()
            }),
    decreases subvols.len(),
{
    if subvols.len() > 0 {
        let front = subvols.drop_last();
        lemma_flagged_sharers(a, front);
        lemma_flagged(a, front);
        let b = flagged(a, front);
        let names = components(subvols.last());
        lemma_placed(b, names);
        lemma_placed_sharers(b, names);
        lemma_placing_counts(b, names);
        let (c, at) = placed(b, names);
        let d = flagged(a, subvols);
        assert forall|i: int| 0 <= i < d.len() implies (#[trigger] d[i]).sharers == (if i < a.len() {
            a[i].sharers
        } else {
            Seq::empty()
        }) by {
            assert(d[i].sharers == c[i].sharers);
            if i < b.len() {
                assert(c[i] == b[i]);
            }
        }
    }
}

proof fn lemma_sharers_noted(
    a: Seq<NodeView>,
    leaves: Seq<int>,
    owners: Seq<Seq<char>>,
    id: int,
    i: int,
    n: nat,
)
    requires
        leaves.len() == owners.len(),
        n <= owners.len(),
        0 <= id < a.len(),
        forall|k: int| 0 <= k < leaves.len() ==> 0 <= #[trigger] leaves[k] < a.len(),
    ensures
        ({
            let b = shared_among(a, leaves, owners, n);
            let now = b[id];
            &&& b.len() == a.len()
            &&& now == (NodeView { sharers: now.sharers, ..a[id] })
            &&& !leaves.contains(id) ==> now.sharers == a[id].sharers
            &&& owners.len() <= 1 ==> now.sharers == a[id].sharers
            &&& 0 <= i < leaves.len() && leaves[i] == id && (forall|k: int|
                0 <= k < leaves.len() && k != i ==> #[trigger] leaves[k] != id) ==> now.sharers
                == (if i < n {
                noted(a[id].sharers, co_owners(owners, i))
            } else {
                a[id].sharers
            })
        }),
    decreases n,
{
    if n > 0 {
        lemma_sharers_noted(a, leaves, owners, id, i, (n - 1) as nat);
        let at = leaves[n - 1];
        assert(leaves.contains(at));
        if owners.len() == 1 {
            assert(co_owners(owners, 0) =~= Seq::<Seq<char>>::empty());
        }
    }
}

/// An entry that is there holds a subvolume exactly when something that is live in its
/// subtree, itself included, is flagged as one.
pub proof fn law_held_subvolumes_are_live_below(a: Seq<NodeView>, id: int)
    requires
        is_tree(a),
        0 <= id < a.len(),
        live(a, id),
    ensures
        holds_subvol(a, id) <==> exists|d: int|
            0 <= d < a.len() && #[trigger] within(a, id, d) && live(a, d) && a[d].subvol,
        a[id].subvol ==> holds_subvol(a, id),
{
    if holds_subvol(a, id) {
        let d = choose|d: int| 0 <= d < a.len() && #[trigger] attached(a, id, d) && a[d].subvol;
        law_listed_below_is_live_below(a, id, d);
    }
    if exists|d: int| 0 <= d < a.len() && #[trigger] within(a, id, d) && live(a, d) && a[d].subvol {
        let d = choose|d: int|
            0 <= d < a.len() && #[trigger] within(a, id, d) && live(a, d) && a[d].subvol;
        law_listed_below_is_live_below(a, id, d);
        assert(attached(a, id, d));
    }
    if a[id].subvol {
        assert(attached(a, id, id));
    }
}

/// An entry that was just made has counted nothing, shares with nobody and is flagged as
/// nothing.
pub proof fn law_new_entries_are_blank(name: Seq<char>, p: int)
    ensures
        ({
            let n = fresh(name, Some(p));
            &&& n.name == name && n.parent == Some(p)
            &&& !n.subvol && !n.removed && n.sharers.len() == 0
            &&& n.c.represented == 0 && n.c.exclusive == 0 && n.c.shared == 0
            &&& n.c.distributed == 0 as real && n.c.uncompressed == 0 as real
            &&& n.c.comp_samples == 0
        }),
        empty_tree().total_samples == 0,
        empty_tree().nodes.len() == 1,
        empty_tree().nodes[0].c == no_counts(),
{
}

/// A sample is taken unless the size on disk that it is measured by is zero, or the
/// samples, its owners or the nodes are too many to be counted.
pub proof fn law_samples_are_refused_for_want_of_room_only(
    t: TreeView,
    owners: Seq<Seq<char>>,
    subvols: Seq<Seq<char>>,
    ratio: Option<RatioView>,
)
    requires
        owners.len() > 0,
    ensures
        ratio is Some && ratio->0.disk == 0 ==> !can_take(t, owners, subvols, ratio),
        (ratio is None || ratio->0.disk > 0) && t.total_samples < 0xffff_ffff_ffff_ffff
            && owners.len() <= 0xffff_ffff && sampled(
            t,
            owners,
            subvols,
            ratio,
        ).nodes.len() <= 0x1_0000_0000 && is_tree(t.nodes) ==> can_take(
            t,
            owners,
            subvols,
            ratio,
        ),
        can_take(t, owners, subvols, ratio) && is_tree(t.nodes) ==> sampled(
            t,
            owners,
            subvols,
            ratio,
        ).nodes.len() <= 0x1_0000_0000,
{
    if is_tree(t.nodes) {
        lemma_sampled_node(t, owners, subvols, ratio);
    }
}

/// A node that has counted one sample of known compression measures what the sample's
/// extent says: as many bytes on disk per byte before compression. One that has counted
/// none measures nothing, and a sample of unknown compression changes nothing of what a
/// node measures.
pub proof fn law_one_sample_measures_its_own_ratio(c: CountersView, h: nat, m: nat, r: RatioView)
    requires
        r.disk > 0,
        r.ram > 0,
    ensures
        measured(no_counts()) is None,
        measured(credited(no_counts(), h, m, true, None)) is None,
        measured(credited(no_counts(), h, m, false, Some(r))) is None,
        measured(credited(c, h, m, true, None)) == measured(c),
        measured(credited(c, h, m, false, Some(r))) == measured(c),
        measured(c) matches Some((n, d)) ==> measured(credited(c, h, m, true, Some(r))) == Some(
            (n + 1, d + quotient(r.ram as int, r.disk as int)),
        ),
        measured(credited(no_counts(), h, m, true, Some(r))) matches Some((n, d)) && (n as real) * (
        r.ram as real) == d * (r.disk as real),
{
    lemma_quotient_undone(r.ram as int, r.disk as int);
    let q = quotient(r.ram as int, r.disk as int);
    let (x, y) = (r.ram as real, r.disk as real);
    assert(q > 0 as real) by (nonlinear_arith)
        requires
            q * y == x,
            x > 0 as real,
            y > 0 as real,
    ;
    assert((1 as real) * x == x) by (nonlinear_arith);
    assert(measured(credited(no_counts(), h, m, true, Some(r))) == Some((1nat, 0 as real + q)));
}

} // verus!
