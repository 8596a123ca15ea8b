//! What holds of the tree as a whole.

use vstd::prelude::*;

use crate::text::{
    components, is_component, joined, lemma_components_of_joined, lemma_components_proper,
};
use crate::tree::model::{
    child, counts_below, empty_tree, flagged, fresh, is_tree, live, named_child, no_counts, noted,
    owned_below, path, placed, placed_all, resolve, sampled, special, with_child, within, without,
    NodeView, RatioView, TreeView,
};
use crate::tree::proofs::{
    grown, lemma_child_is, lemma_child_unique, lemma_flag_keeps, lemma_flagged,
    lemma_flagging_counts, lemma_hits_all, lemma_hits_bound, lemma_live, lemma_placed,
    lemma_placed_all, lemma_placing_all_counts, lemma_placing_counts, lemma_sampled_node,
    lemma_with_child, lemma_within_bound, lemma_within_kept, lemma_within_root, lemma_within_shape,
    lemma_within_transitive,
};

verus! {

// ---- what a sample does to each node ----

/// The owners' nodes for a sample.
pub open spec fn owner_nodes(
    t: TreeView,
    owners: Seq<Seq<char>>,
    subvols: Seq<Seq<char>>,
) -> Seq<int> {
    placed_all(flagged(t.nodes, subvols), owners).1
}

/// Every sample is represented by, exclusive to, and fully distributed over the
/// root; none is shared by it.
pub proof fn law_root_counts_every_sample(
    t: TreeView,
    owners: Seq<Seq<char>>,
    subvols: Seq<Seq<char>>,
    ratio: Option<RatioView>,
)
    requires
        is_tree(t.nodes),
        owners.len() > 0,
    ensures
        ({
            let was = t.nodes[0].c;
            let now = sampled(t, owners, subvols, ratio).nodes[0].c;
            &&& now.represented == was.represented + 1
            &&& now.exclusive == was.exclusive + 1
            &&& now.shared == was.shared
            &&& now.distributed == was.distributed + 1 as real
        }),
{
    lemma_sampled_node(t, owners, subvols, ratio);
    lemma_flagging_counts(t.nodes, subvols);
    lemma_flagged(t.nodes, subvols);
    lemma_placing_all_counts(flagged(t.nodes, subvols), owners);
    let (a, leaves) = placed_all(flagged(t.nodes, subvols), owners);
    let b = sampled(t, owners, subvols, ratio).nodes;
    assert(b[0].c == b[0].c);
    assert(a[0] == flagged(t.nodes, subvols)[0]);
    lemma_hits_all(a, 0, leaves);
    assert forall|i: int| 0 <= i < leaves.len() implies within(a, 0, #[trigger] leaves[i]) by {
        lemma_within_root(a, leaves[i]);
    }
    let m = leaves.len() as real;
    assert(m / m == 1 as real) by (nonlinear_arith)
        requires
            m > 0 as real,
    ;
}

/// A sample is exclusive to a node exactly when all its owners lie in the
/// node's subtree, shared exactly when some but not all do, and represented
/// exactly when the canonical owner, the first, does. Each counts at most once. That
/// holds of every node there is afterwards; one that the sample made had counted
/// nothing before.
pub proof fn law_sample_counts_once_per_node(
    t: TreeView,
    owners: Seq<Seq<char>>,
    subvols: Seq<Seq<char>>,
    ratio: Option<RatioView>,
    id: int,
)
    requires
        is_tree(t.nodes),
        owners.len() > 0,
        0 <= id < sampled(t, owners, subvols, ratio).nodes.len(),
    ensures
        ({
            let was = if id < t.nodes.len() {
                t.nodes[id].c
            } else {
                no_counts()
            };
            let after = sampled(t, owners, subvols, ratio).nodes;
            let now = after[id].c;
            let leaves = owner_nodes(t, owners, subvols);
            let all = forall|i: int|
                0 <= i < leaves.len() ==> within(after, id, #[trigger] leaves[i]);
            let some = exists|i: int|
                0 <= i < leaves.len() && within(after, id, #[trigger] leaves[i]);
            &&& leaves.len() == owners.len()
            &&& now.exclusive == was.exclusive + (if all {
                1nat
            } else {
                0nat
            })
            &&& now.shared == was.shared + (if some && !all {
                1nat
            } else {
                0nat
            })
            &&& now.represented == was.represented + (if within(after, id, leaves[0]) {
                1nat
            } else {
                0nat
            })
        }),
{
    lemma_sampled_node(t, owners, subvols, ratio);
    lemma_flagging_counts(t.nodes, subvols);
    lemma_flagged(t.nodes, subvols);
    lemma_placing_all_counts(flagged(t.nodes, subvols), owners);
    let (a, leaves) = placed_all(flagged(t.nodes, subvols), owners);
    let b = sampled(t, owners, subvols, ratio).nodes;
    let f = flagged(t.nodes, subvols);
    lemma_placed_all(f, owners);
    assert(b.len() == a.len());
    assert(b[id].c == b[id].c);
    if id < f.len() {
        assert(a[id] == f[id]);
    }
    assert(a[id].c == (if id < t.nodes.len() {
        t.nodes[id].c
    } else {
        no_counts()
    }));
    lemma_hits_all(a, id, leaves);
    lemma_hits_bound(a, id, leaves);
    assert forall|i: int| 0 <= i < leaves.len() implies within(a, id, #[trigger] leaves[i])
        == within(b, id, leaves[i]) by {
        lemma_within_shape(a, b, id, leaves[i]);
    }
    let all = forall|i: int| 0 <= i < leaves.len() ==> within(b, id, #[trigger] leaves[i]);
    if all {
        assert forall|i: int| 0 <= i < leaves.len() implies within(a, id, #[trigger] leaves[i]) by {
            assert(within(b, id, leaves[i]));
        }
    }
    if owned_below(a, id, leaves) == leaves.len() {
        assert forall|i: int| 0 <= i < leaves.len() implies within(b, id, #[trigger] leaves[i]) by {
            assert(within(a, id, leaves[i]));
        }
    }
    if owned_below(a, id, leaves) > 0 {
        let i = choose|i: int| 0 <= i < leaves.len() && within(a, id, #[trigger] leaves[i]);
        assert(within(b, id, leaves[i]));
    }
    if exists|i: int| 0 <= i < leaves.len() && within(b, id, #[trigger] leaves[i]) {
        let i = choose|i: int| 0 <= i < leaves.len() && within(b, id, #[trigger] leaves[i]);
        assert(within(a, id, leaves[i]));
    }
    assert(0 <= leaves[0] < a.len());
}

/// Whether the root counts every sample as represented and exclusive, and every node
/// counts no more samples as represented than as exclusive or shared, and no more of
/// these than were taken.
pub open spec fn fits_together(t: TreeView) -> bool {
    &&& t.nodes[0].c.represented == t.total_samples
    &&& t.nodes[0].c.exclusive == t.total_samples
    &&& t.nodes[0].c.shared == 0
    &&& forall|i: int|
        0 <= i < t.nodes.len() ==> (#[trigger] t.nodes[i]).c.represented <= t.nodes[i].c.exclusive
            + t.nodes[i].c.shared <= t.total_samples
}

/// The counters fit together before the first sample and after every one.
pub proof fn law_counters_fit_together(
    t: TreeView,
    owners: Seq<Seq<char>>,
    subvols: Seq<Seq<char>>,
    ratio: Option<RatioView>,
)
    requires
        is_tree(t.nodes),
        fits_together(t),
    ensures
        fits_together(empty_tree()),
        fits_together(sampled(t, owners, subvols, ratio)),
{
    if owners.len() > 0 {
        law_root_counts_every_sample(t, owners, subvols, ratio);
        let u = sampled(t, owners, subvols, ratio);
        let leaves = owner_nodes(t, owners, subvols);
        assert forall|i: int| 0 <= i < u.nodes.len() implies (#[trigger] u.nodes[i]).c.represented
            <= u.nodes[i].c.exclusive + u.nodes[i].c.shared <= u.total_samples by {
            law_sample_counts_once_per_node(t, owners, subvols, ratio, i);
            if i < t.nodes.len() {
                assert(t.nodes[i].c.represented <= t.nodes[i].c.exclusive + t.nodes[i].c.shared);
            }
            if within(u.nodes, i, leaves[0]) {
                assert(exists|k: int|
                    0 <= k < leaves.len() && within(u.nodes, i, #[trigger] leaves[k]));
            }
        }
    }
}

/// Ids are for good: neither a sample nor a removal changes a node's name or
/// place, nor takes a subvolume flag back.
pub proof fn law_ids_are_stable(
    t: TreeView,
    owners: Seq<Seq<char>>,
    subvols: Seq<Seq<char>>,
    ratio: Option<RatioView>,
    gone: int,
    id: int,
)
    requires
        is_tree(t.nodes),
        0 <= id < t.nodes.len(),
    ensures
        ({
            let a = sampled(t, owners, subvols, ratio).nodes;
            let b = without(t.nodes, gone);
            &&& a.len() >= t.nodes.len()
            &&& a[id].name == t.nodes[id].name
            &&& a[id].parent == t.nodes[id].parent
            &&& a[id].removed == t.nodes[id].removed
            &&& t.nodes[id].subvol ==> a[id].subvol
            &&& b.len() == t.nodes.len()
            &&& b[id].name == t.nodes[id].name
            &&& b[id].parent == t.nodes[id].parent
            &&& b[id].subvol == t.nodes[id].subvol
        }),
{
    if owners.len() > 0 {
        lemma_sampled_node(t, owners, subvols, ratio);
        lemma_flagging_counts(t.nodes, subvols);
        lemma_flagged(t.nodes, subvols);
        lemma_placing_all_counts(flagged(t.nodes, subvols), owners);
        let (a, leaves) = placed_all(flagged(t.nodes, subvols), owners);
        let b = sampled(t, owners, subvols, ratio).nodes;
        assert(b[id].name == a[id].name);
        assert(a[id] == flagged(t.nodes, subvols)[id]);
        assert(b[id].c == b[id].c);
    }
}

/// Whether no counter exceeds the number of samples.
pub open spec fn counted_once(t: TreeView) -> bool {
    forall|i: int|
        0 <= i < t.nodes.len() ==> counts_below((#[trigger] t.nodes[i]).c, t.total_samples + 1)
}

/// No node counts more samples than were taken, however many are added and
/// whatever is removed.
pub proof fn law_counts_stay_within_samples(
    t: TreeView,
    owners: Seq<Seq<char>>,
    subvols: Seq<Seq<char>>,
    ratio: Option<RatioView>,
    gone: int,
)
    requires
        is_tree(t.nodes),
        counted_once(t),
    ensures
        counted_once(sampled(t, owners, subvols, ratio)),
        counted_once(TreeView { nodes: without(t.nodes, gone), ..t }),
{
    if owners.len() > 0 {
        lemma_sampled_node(t, owners, subvols, ratio);
        lemma_flagging_counts(t.nodes, subvols);
        lemma_flagged(t.nodes, subvols);
        let f = flagged(t.nodes, subvols);
        lemma_placing_all_counts(f, owners);
        lemma_placed_all(f, owners);
        let (a, leaves) = placed_all(f, owners);
        let b = sampled(t, owners, subvols, ratio).nodes;
        assert forall|i: int| 0 <= i < b.len() implies counts_below(
            (#[trigger] b[i]).c,
            t.total_samples + 2,
        ) by {
            if i < t.nodes.len() {
                assert(a[i] == f[i]);
                assert(counts_below(t.nodes[i].c, t.total_samples + 1));
            } else if i < f.len() {
                assert(a[i] == f[i]);
            }
            assert(counts_below(a[i].c, t.total_samples + 1));
        }
    }
    let b = without(t.nodes, gone);
    assert forall|i: int| 0 <= i < b.len() implies counts_below(
        (#[trigger] b[i]).c,
        t.total_samples + 1,
    ) by {
        assert(counts_below(t.nodes[i].c, t.total_samples + 1));
    }
}

// ---- paths and ids ----

/// The node of a path lists the path as its own, and is live.
pub proof fn law_found_node_has_the_path(a: Seq<NodeView>, names: Seq<Seq<char>>)
    requires
        is_tree(a),
        resolve(a, names) is Some,
    ensures
        0 <= resolve(a, names)->0 < a.len(),
        path(a, resolve(a, names)->0) == names,
        live(a, resolve(a, names)->0),
    decreases names.len(),
{
    if names.len() > 0 {
        law_found_node_has_the_path(a, names.drop_last());
        let p = resolve(a, names.drop_last())->0;
        lemma_child_is(a, p, names.last());
        assert(names.drop_last().push(names.last()) =~= names);
    } else {
        assert(path(a, 0) =~= names);
    }
}

/// Every live node is found by its path.
pub proof fn law_live_node_is_found(a: Seq<NodeView>, id: int)
    requires
        is_tree(a),
        0 <= id < a.len(),
        live(a, id),
    ensures
        resolve(a, path(a, id)) == Some(id),
    decreases id,
{
    if id > 0 {
        let p = a[id].parent->0;
        law_live_node_is_found(a, p);
        let names = path(a, id);
        assert(names.drop_last() =~= path(a, p));
        assert(names.last() == a[id].name);
        assert(named_child(a, p, a[id].name, id));
        lemma_child_unique(a, p, a[id].name, id);
    }
}

/// A path that was made leads to the node that was made for it, and every path
/// that led somewhere still leads there.
pub proof fn law_placed_path_is_found(
    a: Seq<NodeView>,
    names: Seq<Seq<char>>,
    other: Seq<Seq<char>>,
)
    requires
        is_tree(a),
    ensures
        resolve(placed(a, names).0, names) == Some(placed(a, names).1),
        resolve(a, other) is Some ==> resolve(placed(a, names).0, other) == resolve(a, other),
    decreases names.len(),
{
    lemma_placed(a, names);
    lemma_still_found(a, placed(a, names).0, other);
    if names.len() > 0 {
        law_placed_path_is_found(a, names.drop_last(), other);
        lemma_placed(a, names.drop_last());
        let (b, p) = placed(a, names.drop_last());
        lemma_with_child(b, p, names.last());
        let (c, id) = with_child(b, p, names.last());
        lemma_still_found(b, c, names.drop_last());
    }
}

/// A path that was made is there: its node is live, has the path as its own and is
/// found by it; the nodes that were there are as they were, and the new ones are
/// live and have counted nothing. To make the path again changes nothing. The empty
/// path is that of the root.
pub proof fn law_made_path_is_there(a: Seq<NodeView>, text: Seq<char>)
    requires
        is_tree(a),
    ensures
        ({
            let names = components(text);
            let (b, id) = placed(a, names);
            &&& is_tree(b)
            &&& 0 <= id < b.len()
            &&& names.len() == 0 ==> id == 0
            &&& joined(path(b, id), seq!['/']) == joined(names, seq!['/'])
            &&& resolve(b, names) == Some(id)
            &&& live(b, id)
            &&& placed(b, names) == (b, id)
            &&& a.len() <= b.len()
            &&& forall|i: int| 0 <= i < a.len() ==> #[trigger] b[i] == a[i]
            &&& forall|i: int|
                a.len() <= i < b.len() ==> #[trigger] b[i] == fresh(b[i].name, b[i].parent)
                    && live(b, i)
        }),
{
    let names = components(text);
    let b = placed(a, names).0;
    lemma_placed(a, names);
    lemma_placing_counts(a, names);
    law_placed_path_is_found(a, names, names);
    law_found_node_has_the_path(b, names);
    lemma_placed_again(b, names);
    lemma_new_nodes(a, names);
}

/// Making a path that leads somewhere makes nothing.
proof fn lemma_placed_again(a: Seq<NodeView>, names: Seq<Seq<char>>)
    requires
        resolve(a, names) is Some,
    ensures
        placed(a, names) == (a, resolve(a, names)->0),
    decreases names.len(),
{
    if names.len() > 0 {
        lemma_placed_again(a, names.drop_last());
    }
}

/// The nodes that a path needs are fresh and live.
proof fn lemma_new_nodes(a: Seq<NodeView>, names: Seq<Seq<char>>)
    requires
        is_tree(a),
    ensures
        ({
            let b = placed(a, names).0;
            forall|i: int|
                a.len() <= i < b.len() ==> #[trigger] b[i] == fresh(b[i].name, b[i].parent) && live(
                    b,
                    i,
                )
        }),
    decreases names.len(),
{
    if names.len() > 0 {
        let front = names.drop_last();
        lemma_new_nodes(a, front);
        lemma_placed(a, front);
        let (b, p) = placed(a, front);
        let c = placed(a, names).0;
        lemma_with_child(b, p, names.last());
        law_placed_path_is_found(a, front, front);
        law_found_node_has_the_path(b, front);
        assert forall|i: int| a.len() <= i < c.len() implies #[trigger] c[i] == fresh(
            c[i].name,
            c[i].parent,
        ) && live(c, i) by {
            if i < b.len() {
                assert(c[i] == b[i]);
                lemma_live_kept(b, c, i);
            } else {
                lemma_live_kept(b, c, p);
            }
        }
    }
}

/// What is live stays so when nodes are added.
proof fn lemma_live_kept(a: Seq<NodeView>, b: Seq<NodeView>, id: int)
    requires
        grown(a, b),
        0 <= id < a.len(),
    ensures
        live(b, id) == live(a, id),
    decreases id,
{
    match a[id].parent {
        Some(p) => {
            if 0 <= p < id {
                lemma_live_kept(a, b, p);
            }
        },
        None => {},
    }
    assert(b[id].removed == a[id].removed);
}

/// Growing a tree leads no path astray.
pub proof fn lemma_still_found(a: Seq<NodeView>, b: Seq<NodeView>, names: Seq<Seq<char>>)
    requires
        is_tree(a),
        is_tree(b),
        grown(a, b),
    ensures
        resolve(a, names) is Some ==> resolve(b, names) == resolve(a, names),
    decreases names.len(),
{
    if names.len() > 0 && resolve(a, names) is Some {
        lemma_still_found(a, b, names.drop_last());
        let p = resolve(a, names.drop_last())->0;
        lemma_child_is(a, p, names.last());
        let c = child(a, p, names.last())->0;
        assert(named_child(b, p, names.last(), c));
        lemma_child_unique(b, p, names.last(), c);
    }
}

proof fn lemma_all_placed_are_found(a: Seq<NodeView>, paths: Seq<Seq<char>>, k: int)
    requires
        is_tree(a),
        0 <= k < paths.len(),
    ensures
        resolve(placed_all(a, paths).0, components(paths[k])) == Some(placed_all(a, paths).1[k]),
    decreases paths.len(),
{
    lemma_placed_all(a, paths.drop_last());
    let (b, ids) = placed_all(a, paths.drop_last());
    law_placed_path_is_found(b, components(paths.last()), components(paths[k]));
    if k < paths.len() - 1 {
        lemma_all_placed_are_found(a, paths.drop_last(), k);
        assert(paths.drop_last()[k] == paths[k]);
    }
}

proof fn lemma_flagged_is_found(a: Seq<NodeView>, subvols: Seq<Seq<char>>, k: int)
    requires
        is_tree(a),
        0 <= k < subvols.len(),
    ensures
        resolve(flagged(a, subvols), components(subvols[k])) matches Some(id) && 0 <= id
            < flagged(a, subvols).len() && flagged(a, subvols)[id].subvol,
    decreases subvols.len(),
{
    lemma_flagged(a, subvols.drop_last());
    lemma_flagged(a, subvols);
    let b = flagged(a, subvols.drop_last());
    let names = components(subvols.last());
    let (c, id) = placed(b, names);
    let d = flagged(a, subvols);
    lemma_placed(b, names);
    lemma_placing_counts(b, names);
    law_placed_path_is_found(b, names, components(subvols[k]));
    lemma_flag_keeps(c, id, NodeView { subvol: true, ..c[id] });
    lemma_still_found(c, d, components(subvols[k]));
    if k < subvols.len() - 1 {
        lemma_flagged_is_found(a, subvols.drop_last(), k);
        assert(subvols.drop_last()[k] == subvols[k]);
        let x = resolve(b, components(subvols[k]))->0;
        assert(c[x] == b[x]);
    }
}

/// After a sample each owner's path leads to the node that counted it, each
/// subvolume's path to a node flagged as one, and every path that led
/// somewhere still leads there.
pub proof fn law_sample_is_found(
    t: TreeView,
    owners: Seq<Seq<char>>,
    subvols: Seq<Seq<char>>,
    ratio: Option<RatioView>,
    other: Seq<Seq<char>>,
)
    requires
        is_tree(t.nodes),
        owners.len() > 0,
    ensures
        ({
            let after = sampled(t, owners, subvols, ratio).nodes;
            &&& forall|k: int|
                0 <= k < owners.len() ==> resolve(after, components(#[trigger] owners[k])) == Some(
                    owner_nodes(t, owners, subvols)[k],
                )
            &&& forall|k: int|
                0 <= k < subvols.len() ==> (resolve(
                    after,
                    components(#[trigger] subvols[k]),
                ) matches Some(id) && 0 <= id < after.len() && after[id].subvol)
            &&& resolve(t.nodes, other) is Some ==> resolve(after, other) == resolve(
                t.nodes,
                other,
            )
        }),
{
    lemma_sampled_node(t, owners, subvols, ratio);
    lemma_flagged(t.nodes, subvols);
    let f = flagged(t.nodes, subvols);
    lemma_placed_all(f, owners);
    lemma_placing_all_counts(f, owners);
    let (a, leaves) = placed_all(f, owners);
    let b = sampled(t, owners, subvols, ratio).nodes;
    assert forall|k: int| 0 <= k < owners.len() implies resolve(
        b,
        components(#[trigger] owners[k]),
    ) == Some(leaves[k]) by {
        lemma_all_placed_are_found(f, owners, k);
        lemma_still_found(a, b, components(owners[k]));
    }
    assert forall|k: int| 0 <= k < subvols.len() implies (resolve(
        b,
        components(#[trigger] subvols[k]),
    ) matches Some(id) && 0 <= id < b.len() && b[id].subvol) by {
        lemma_flagged_is_found(t.nodes, subvols, k);
        lemma_still_found(f, a, components(subvols[k]));
        lemma_still_found(a, b, components(subvols[k]));
        let x = resolve(f, components(subvols[k]))->0;
        assert(a[x] == f[x]);
        assert(b[x].c == b[x].c);
    }
    lemma_still_found(t.nodes, f, other);
    lemma_still_found(f, a, other);
    lemma_still_found(a, b, other);
}

/// Whether every name can stand between two slashes.
pub open spec fn proper_names(a: Seq<NodeView>) -> bool {
    forall|i: int| 0 < i < a.len() ==> is_component((#[trigger] a[i]).name)
}

proof fn lemma_path_proper(a: Seq<NodeView>, id: int)
    requires
        is_tree(a),
        proper_names(a),
        0 <= id < a.len(),
    ensures
        forall|k: int| 0 <= k < path(a, id).len() ==> is_component(#[trigger] path(a, id)[k]),
    decreases id,
{
    if id > 0 {
        let p = a[id].parent->0;
        lemma_path_proper(a, p);
        assert(is_component(a[id].name));
        assert forall|k: int| 0 <= k < path(a, id).len() implies is_component(
            #[trigger] path(a, id)[k],
        ) by {
            if k < path(a, p).len() {
                assert(is_component(path(a, p)[k]));
            }
        }
    }
}

/// The path of a live node, written out, leads back to that node.
pub proof fn law_written_path_leads_back(a: Seq<NodeView>, id: int)
    requires
        is_tree(a),
        proper_names(a),
        0 <= id < a.len(),
        live(a, id),
    ensures
        resolve(a, components(joined(path(a, id), seq!['/']))) == Some(id),
{
    lemma_path_proper(a, id);
    lemma_components_of_joined(path(a, id));
    law_live_node_is_found(a, id);
}

proof fn lemma_placed_names(a: Seq<NodeView>, names: Seq<Seq<char>>)
    requires
        is_tree(a),
        proper_names(a),
        forall|k: int| 0 <= k < names.len() ==> is_component(#[trigger] names[k]),
    ensures
        proper_names(placed(a, names).0),
    decreases names.len(),
{
    if names.len() > 0 {
        let front = names.drop_last();
        assert forall|k: int| 0 <= k < front.len() implies is_component(#[trigger] front[k]) by {
            assert(is_component(names[k]));
        }
        lemma_placed_names(a, front);
        lemma_placed(a, front);
        assert(is_component(names[names.len() - 1]));
        let b = placed(a, front).0;
        let c = placed(a, names).0;
        assert forall|i: int| 0 < i < c.len() implies is_component((#[trigger] c[i]).name) by {
            if i < b.len() {
                assert(is_component(b[i].name));
            }
        }
    }
}

proof fn lemma_flagged_names(a: Seq<NodeView>, subvols: Seq<Seq<char>>)
    requires
        is_tree(a),
        proper_names(a),
    ensures
        proper_names(flagged(a, subvols)),
    decreases subvols.len(),
{
    if subvols.len() > 0 {
        let b = flagged(a, subvols.drop_last());
        let names = components(subvols.last());
        lemma_flagged_names(a, subvols.drop_last());
        lemma_flagged(a, subvols.drop_last());
        lemma_components_proper(subvols.last());
        lemma_placed_names(b, names);
        lemma_placed(b, names);
        let c = placed(b, names).0;
        let d = flagged(a, subvols);
        assert forall|i: int| 0 < i < d.len() implies is_component((#[trigger] d[i]).name) by {
            assert(is_component(c[i].name));
        }
    }
}

proof fn lemma_placed_all_names(a: Seq<NodeView>, paths: Seq<Seq<char>>)
    requires
        is_tree(a),
        proper_names(a),
    ensures
        proper_names(placed_all(a, paths).0),
    decreases paths.len(),
{
    if paths.len() > 0 {
        lemma_placed_all_names(a, paths.drop_last());
        lemma_placed_all(a, paths.drop_last());
        lemma_components_proper(paths.last());
        lemma_placed_names(placed_all(a, paths.drop_last()).0, components(paths.last()));
    }
}

/// Neither a sample nor a removal brings in a name that is empty or holds a
/// slash.
pub proof fn law_names_stay_proper(
    t: TreeView,
    owners: Seq<Seq<char>>,
    subvols: Seq<Seq<char>>,
    ratio: Option<RatioView>,
    gone: int,
)
    requires
        is_tree(t.nodes),
        proper_names(t.nodes),
    ensures
        proper_names(sampled(t, owners, subvols, ratio).nodes),
        proper_names(without(t.nodes, gone)),
{
    if owners.len() > 0 {
        lemma_sampled_node(t, owners, subvols, ratio);
        lemma_flagged(t.nodes, subvols);
        lemma_flagged_names(t.nodes, subvols);
        lemma_placed_all_names(flagged(t.nodes, subvols), owners);
        let a = placed_all(flagged(t.nodes, subvols), owners).0;
        let b = sampled(t, owners, subvols, ratio).nodes;
        assert forall|i: int| 0 < i < b.len() implies is_component((#[trigger] b[i]).name) by {
            assert(is_component(a[i].name));
        }
    }
    let b = without(t.nodes, gone);
    assert forall|i: int| 0 < i < b.len() implies is_component((#[trigger] b[i]).name) by {
        assert(is_component(t.nodes[i].name));
    }
}

/// An entry is special exactly when its path starts with `<`.
pub proof fn law_special_paths_start_with_a_bracket(a: Seq<NodeView>, id: int)
    requires
        is_tree(a),
        0 <= id < a.len(),
    ensures
        special(a, id) <==> path(a, id).len() > 0 && path(a, id)[0].len() > 0 && path(
            a,
            id,
        )[0][0] == '<',
    decreases id,
{
    if id == 0 {
        if special(a, id) {
            let top = choose|top: int| #[trigger]
                within(a, top, id) && 0 <= top < a.len() && a[top].parent == Some(0int)
                    && a[top].name.len() > 0 && a[top].name[0] == '<';
            assert(top == 0);
        }
    } else {
        let p = a[id].parent->0;
        law_special_paths_start_with_a_bracket(a, p);
        if p == 0 {
            assert(path(a, 0) =~= Seq::empty());
            assert(path(a, id) =~= seq![a[id].name]);
            assert(within(a, id, id));
            if special(a, id) {
                let top = choose|top: int| #[trigger]
                    within(a, top, id) && 0 <= top < a.len() && a[top].parent == Some(0int)
                        && a[top].name.len() > 0 && a[top].name[0] == '<';
                if top != id {
                    assert(within(a, top, 0));
                    assert(top == 0);
                }
            }
        } else {
            assert(path(a, p).len() > 0);
            assert(path(a, id)[0] == path(a, p)[0]);
            if special(a, id) {
                let top = choose|top: int| #[trigger]
                    within(a, top, id) && 0 <= top < a.len() && a[top].parent == Some(0int)
                        && a[top].name.len() > 0 && a[top].name[0] == '<';
                assert(within(a, top, p));
            }
            if special(a, p) {
                let top = choose|top: int| #[trigger]
                    within(a, top, p) && 0 <= top < a.len() && a[top].parent == Some(0int)
                        && a[top].name.len() > 0 && a[top].name[0] == '<';
                assert(within(a, top, id));
            }
        }
    }
}

// ---- removal ----

/// What is removed leaves the tree with everything below it and nothing else:
/// its path leads nowhere any more, and every other live node keeps its path.
pub proof fn law_removed_subtree_is_gone(a: Seq<NodeView>, id: int, other: int)
    requires
        is_tree(a),
        0 < id < a.len(),
        live(a, id),
        0 <= other < a.len(),
    ensures
        is_tree(without(a, id)),
        resolve(without(a, id), path(a, id)) is None,
        live(without(a, id), other) <==> live(a, other) && !within(a, id, other),
        live(without(a, id), other) ==> resolve(without(a, id), path(a, other)) == Some(other),
{
    let b = without(a, id);
    assert forall|i: int| 0 < i < b.len() implies (#[trigger] b[i]).parent is Some && 0
        <= b[i].parent->0 < i by {
        assert(a[i].parent is Some);
    }
    assert forall|c: int, d: int|
        0 < c < b.len() && 0 < d < b.len() && !b[c].removed && !b[d].removed && (
        #[trigger] b[c]).parent == (#[trigger] b[d]).parent && b[c].name == b[d].name implies c
        == d by {
        assert(a[c].parent == a[d].parent);
    }
    lemma_live(a, id);
    lemma_live(a, other);
    lemma_live(b, other);
    assert forall|x: int| within(a, x, other) == #[trigger] within(b, x, other) by {
        lemma_within_kept(a, id, x, other);
    }
    if live(b, other) {
        if within(a, id, other) {
            assert(within(b, id, other));
        }
        assert forall|x: int| #[trigger] within(a, x, other) implies !a[x].removed by {
            assert(within(b, x, other));
            lemma_within_bound(a, x, other);
        }
        lemma_path_kept(a, id, other);
        law_live_node_is_found(b, other);
    }
    if live(a, other) && !within(a, id, other) {
        assert forall|x: int| #[trigger] within(b, x, other) implies !b[x].removed by {
            assert(within(a, x, other));
            lemma_within_bound(a, x, other);
        }
    }
    lemma_path_kept(a, id, id);
    if resolve(b, path(a, id)) is Some {
        law_found_node_has_the_path(b, path(a, id));
        let x = resolve(b, path(a, id))->0;
        lemma_path_kept(a, id, x);
        lemma_live(a, x);
        lemma_live(b, x);
        assert forall|y: int| #[trigger] within(a, y, x) implies !a[y].removed by {
            lemma_within_kept(a, id, y, x);
            lemma_within_bound(a, y, x);
            assert(within(b, y, x));
        }
        law_live_node_is_found(a, x);
        law_live_node_is_found(a, id);
        assert(x == id);
        assert(within(b, id, id));
    }
}

proof fn lemma_path_kept(a: Seq<NodeView>, gone: int, id: int)
    requires
        is_tree(a),
        0 <= id < a.len(),
    ensures
        path(without(a, gone), id) == path(a, id),
    decreases id,
{
    let b = without(a, gone);
    assert(b[id].parent == a[id].parent && b[id].name == a[id].name);
    if id > 0 {
        lemma_path_kept(a, gone, a[id].parent->0);
    }
}

/// Removing again, or removing something inside what is gone, changes nothing.
pub proof fn law_removal_is_idempotent(a: Seq<NodeView>, id: int, inside: int)
    requires
        is_tree(a),
        0 < id < a.len(),
        0 <= inside < a.len(),
        within(a, id, inside),
    ensures
        without(without(a, id), inside) == without(a, id),
{
    if live(a, id) {
        law_removed_subtree_is_gone(a, id, inside);
    } else {
        lemma_live(a, id);
        lemma_live(a, inside);
        let x = choose|x: int| #[trigger] within(a, x, id) && a[x].removed;
        lemma_within_transitive(a, x, id, inside);
    }
}

/// Samples that are taken later leave what was removed as it is.
pub proof fn law_removed_stays_removed(
    t: TreeView,
    owners: Seq<Seq<char>>,
    subvols: Seq<Seq<char>>,
    ratio: Option<RatioView>,
    id: int,
)
    requires
        is_tree(t.nodes),
        0 <= id < t.nodes.len(),
        !live(t.nodes, id),
    ensures
        !live(sampled(t, owners, subvols, ratio).nodes, id),
{
    if owners.len() > 0 {
        lemma_sampled_node(t, owners, subvols, ratio);
        let a = placed_all(flagged(t.nodes, subvols), owners).0;
        let b = sampled(t, owners, subvols, ratio).nodes;
        lemma_live(t.nodes, id);
        lemma_live(b, id);
        let x = choose|x: int| #[trigger] within(t.nodes, x, id) && t.nodes[x].removed;
        lemma_within_bound(t.nodes, x, id);
        lemma_within_shape(t.nodes, a, x, id);
        lemma_within_shape(a, b, x, id);
        assert(a[x].removed == t.nodes[x].removed);
        assert(b[x].removed == a[x].removed);
        assert(within(b, x, id));
    }
}

// ---- sharers ----

/// Whether a list of sharers is short and free of repetition.
pub open spec fn tidy(sharers: Seq<Seq<char>>) -> bool {
    sharers.len() <= 5 && sharers.no_duplicates()
}

/// Noting further sharers keeps the list short and free of repetition, and the
/// last one noted is in it.
pub proof fn law_sharers_stay_tidy(sharers: Seq<Seq<char>>, others: Seq<Seq<char>>)
    requires
        tidy(sharers),
    ensures
        tidy(noted(sharers, others)),
        others.len() > 0 ==> noted(sharers, others).contains(others.last()),
    decreases others.len(),
{
    if others.len() > 0 {
        law_sharers_stay_tidy(sharers, others.drop_last());
        let s = noted(sharers, others.drop_last());
        let x = others.last();
        let r = noted(sharers, others);
        if !s.contains(x) {
            assert(r[r.len() - 1] == x);
            if s.len() == 5 {
                let d = s.drop_first();
                assert forall|i: int, j: int| 0 <= i < r.len() && 0 <= j < r.len() && i
                    != j implies r[i] != r[j] by {
                    if i < d.len() {
                        assert(r[i] == s[i + 1]);
                    }
                    if j < d.len() {
                        assert(r[j] == s[j + 1]);
                    }
                }
            }
        }
    }
}

} // verus!
