//! Facts about the model of the tree that its operations rest on.

use vstd::prelude::*;

use crate::text::components;
use crate::tree::model::{
    attached, child, child_of, counted, credited, flagged, fresh, is_tree, live, name_count,
    named_child, no_counts, owned_below, placed, placed_all, sampled, shared_among, with_child,
    within, without, NodeView, RatioView, TreeView,
};

verus! {

/// Whether every node of `a` kept its name and place in `b`.
pub open spec fn grown(a: Seq<NodeView>, b: Seq<NodeView>) -> bool {
    &&& a.len() <= b.len()
    &&& forall|i: int|
        0 <= i < a.len() ==> (#[trigger] b[i]).name == a[i].name && b[i].parent == a[i].parent
            && b[i].removed == a[i].removed
}

/// Listed siblings are told apart by name.
pub proof fn lemma_child_unique(a: Seq<NodeView>, p: int, name: Seq<char>, c: int)
    requires
        is_tree(a),
        named_child(a, p, name, c),
    ensures
        child(a, p, name) == Some(c),
{
    let d = choose|d: int| named_child(a, p, name, d);
    assert(named_child(a, p, name, d));
    assert(c != 0 && d != 0);
}

pub proof fn lemma_child_is(a: Seq<NodeView>, p: int, name: Seq<char>)
    ensures
        child(a, p, name) is Some ==> named_child(a, p, name, child(a, p, name)->0),
        child(a, p, name) is None ==> forall|c: int| !#[trigger] named_child(a, p, name, c),
{
}

/// Appending a child under a new name keeps the tree.
pub proof fn lemma_push_child(a: Seq<NodeView>, p: int, name: Seq<char>)
    requires
        is_tree(a),
        0 <= p < a.len(),
        child(a, p, name) is None,
    ensures
        is_tree(a.push(fresh(name, Some(p)))),
        grown(a, a.push(fresh(name, Some(p)))),
{
    let b = a.push(fresh(name, Some(p)));
    lemma_child_is(a, p, name);
    assert forall|c: int, d: int|
        0 < c < b.len() && 0 < d < b.len() && !b[c].removed && !b[d].removed && (
        #[trigger] b[c]).parent == (#[trigger] b[d]).parent && b[c].name == b[d].name implies c
        == d by {
        if c == a.len() && d < a.len() {
            assert(named_child(a, p, name, d));
        }
        if d == a.len() && c < a.len() {
            assert(named_child(a, p, name, c));
        }
    }
}

pub proof fn lemma_with_child(a: Seq<NodeView>, p: int, name: Seq<char>)
    requires
        is_tree(a),
        0 <= p < a.len(),
    ensures
        ({
            let (b, c) = with_child(a, p, name);
            &&& is_tree(b)
            &&& grown(a, b)
            &&& named_child(b, p, name, c)
            &&& child(b, p, name) == Some(c)
            &&& p < c < b.len()
            &&& b.len() <= a.len() + 1
        }),
{
    lemma_child_is(a, p, name);
    if child(a, p, name) is None {
        lemma_push_child(a, p, name);
    }
    let (b, c) = with_child(a, p, name);
    assert(named_child(b, p, name, c));
    lemma_child_unique(b, p, name, c);
}

pub proof fn lemma_placed(a: Seq<NodeView>, names: Seq<Seq<char>>)
    requires
        is_tree(a),
    ensures
        ({
            let (b, id) = placed(a, names);
            &&& is_tree(b)
            &&& grown(a, b)
            &&& 0 <= id < b.len()
            &&& b.len() <= a.len() + names.len()
        }),
    decreases names.len(),
{
    if names.len() > 0 {
        lemma_placed(a, names.drop_last());
        let (b, p) = placed(a, names.drop_last());
        lemma_with_child(b, p, names.last());
    }
}

/// The beginning of a path needs no more nodes than the whole.
pub proof fn lemma_placed_prefix(a: Seq<NodeView>, names: Seq<Seq<char>>, k: int)
    requires
        is_tree(a),
        0 <= k <= names.len(),
    ensures
        placed(a, names.take(k)).0.len() <= placed(a, names).0.len(),
    decreases names.len(),
{
    if k == names.len() {
        assert(names.take(k) =~= names);
    } else {
        let front = names.drop_last();
        assert(front.take(k) =~= names.take(k));
        lemma_placed_prefix(a, front, k);
        lemma_placed(a, front);
    }
}

pub proof fn lemma_flag_keeps(a: Seq<NodeView>, id: int, n: NodeView)
    requires
        is_tree(a),
        0 <= id < a.len(),
        n.name == a[id].name,
        n.parent == a[id].parent,
        n.removed == a[id].removed,
    ensures
        is_tree(a.update(id, n)),
        grown(a, a.update(id, n)),
        grown(a.update(id, n), a),
{
    let b = a.update(id, n);
    assert forall|c: int, d: int|
        0 < c < b.len() && 0 < d < b.len() && !b[c].removed && !b[d].removed && (
        #[trigger] b[c]).parent == (#[trigger] b[d]).parent && b[c].name == b[d].name implies c
        == d by {
        assert(a[c].parent == a[d].parent);
    }
}

/// Nodes that agree on names, parents and removal make a tree together.
pub proof fn lemma_same_shape(a: Seq<NodeView>, b: Seq<NodeView>)
    requires
        is_tree(a),
        grown(a, b),
        a.len() == b.len(),
    ensures
        is_tree(b),
{
    assert forall|c: int, d: int|
        0 < c < b.len() && 0 < d < b.len() && !b[c].removed && !b[d].removed && (
        #[trigger] b[c]).parent == (#[trigger] b[d]).parent && b[c].name == b[d].name implies c
        == d by {
        assert(a[c].parent == a[d].parent);
    }
    assert(b[0].parent is None);
}

pub proof fn lemma_flagged(a: Seq<NodeView>, subvols: Seq<Seq<char>>)
    requires
        is_tree(a),
    ensures
        is_tree(flagged(a, subvols)),
        grown(a, flagged(a, subvols)),
        flagged(a, subvols).len() <= a.len() + name_count(subvols),
    decreases subvols.len(),
{
    if subvols.len() > 0 {
        lemma_flagged(a, subvols.drop_last());
        let b = flagged(a, subvols.drop_last());
        lemma_placed(b, components(subvols.last()));
        let (c, id) = placed(b, components(subvols.last()));
        lemma_flag_keeps(c, id, NodeView { subvol: true, ..c[id] });
    }
}

pub proof fn lemma_placed_all(a: Seq<NodeView>, paths: Seq<Seq<char>>)
    requires
        is_tree(a),
    ensures
        ({
            let (b, ids) = placed_all(a, paths);
            &&& is_tree(b)
            &&& grown(a, b)
            &&& ids.len() == paths.len()
            &&& forall|i: int| 0 <= i < ids.len() ==> 0 <= #[trigger] ids[i] < b.len()
            &&& b.len() <= a.len() + name_count(paths)
        }),
    decreases paths.len(),
{
    if paths.len() > 0 {
        lemma_placed_all(a, paths.drop_last());
        let (b, ids) = placed_all(a, paths.drop_last());
        lemma_placed(b, components(paths.last()));
    }
}

// ---- walking up ----

pub proof fn lemma_within_bound(a: Seq<NodeView>, x: int, id: int)
    requires
        is_tree(a),
        0 <= id < a.len(),
        within(a, x, id),
    ensures
        0 <= x <= id,
    decreases id,
{
    if x != id {
        lemma_within_bound(a, x, a[id].parent->0);
    }
}

pub proof fn lemma_within_transitive(a: Seq<NodeView>, x: int, y: int, z: int)
    requires
        is_tree(a),
        0 <= z < a.len(),
        within(a, x, y),
        within(a, y, z),
    ensures
        within(a, x, z),
    decreases z,
{
    if y != z {
        lemma_within_transitive(a, x, y, a[z].parent->0);
    }
}

/// Two nodes above the same one lie one above the other.
pub proof fn lemma_within_linear(a: Seq<NodeView>, x: int, y: int, z: int)
    requires
        is_tree(a),
        0 <= z < a.len(),
        within(a, x, z),
        within(a, y, z),
    ensures
        within(a, x, y) || within(a, y, x),
    decreases z,
{
    if x != z && y != z {
        lemma_within_linear(a, x, y, a[z].parent->0);
    }
}

/// Everything lies in the subtree of the root.
pub proof fn lemma_within_root(a: Seq<NodeView>, id: int)
    requires
        is_tree(a),
        0 <= id < a.len(),
    ensures
        within(a, 0, id),
    decreases id,
{
    if id != 0 {
        lemma_within_root(a, a[id].parent->0);
    }
}

/// What lies above a node depends on the parents alone.
pub proof fn lemma_within_shape(a: Seq<NodeView>, b: Seq<NodeView>, x: int, id: int)
    requires
        is_tree(a),
        grown(a, b),
        0 <= id < a.len(),
    ensures
        within(a, x, id) == within(b, x, id),
    decreases id,
{
    if id != 0 && x != id {
        lemma_within_shape(a, b, x, a[id].parent->0);
    }
}

pub proof fn lemma_hits_shape(a: Seq<NodeView>, b: Seq<NodeView>, x: int, leaves: Seq<int>)
    requires
        is_tree(a),
        grown(a, b),
        forall|i: int| 0 <= i < leaves.len() ==> 0 <= #[trigger] leaves[i] < a.len(),
    ensures
        owned_below(a, x, leaves) == owned_below(b, x, leaves),
    decreases leaves.len(),
{
    if leaves.len() > 0 {
        lemma_hits_shape(a, b, x, leaves.drop_last());
        lemma_within_shape(a, b, x, leaves.last());
    }
}

pub proof fn lemma_hits_bound(a: Seq<NodeView>, x: int, leaves: Seq<int>)
    ensures
        owned_below(a, x, leaves) <= leaves.len(),
    decreases leaves.len(),
{
    if leaves.len() > 0 {
        lemma_hits_bound(a, x, leaves.drop_last());
    }
}

/// A node counts a hit exactly when it lies above one of the leaves.
pub proof fn lemma_hits_member(a: Seq<NodeView>, x: int, leaves: Seq<int>, i: int)
    requires
        0 <= i < leaves.len(),
        within(a, x, leaves[i]),
    ensures
        owned_below(a, x, leaves) > 0,
    decreases leaves.len(),
{
    if i < leaves.len() - 1 {
        assert(leaves.drop_last()[i] == leaves[i]);
        lemma_hits_member(a, x, leaves.drop_last(), i);
    }
}

/// All leaves are hit exactly when every one of them lies below.
pub proof fn lemma_hits_all(a: Seq<NodeView>, x: int, leaves: Seq<int>)
    ensures
        owned_below(a, x, leaves) == leaves.len() <==> forall|i: int|
            0 <= i < leaves.len() ==> within(a, x, #[trigger] leaves[i]),
        owned_below(a, x, leaves) > 0 <==> exists|i: int|
            0 <= i < leaves.len() && within(a, x, #[trigger] leaves[i]),
    decreases leaves.len(),
{
    if leaves.len() > 0 {
        let front = leaves.drop_last();
        lemma_hits_all(a, x, front);
        lemma_hits_bound(a, x, front);
        assert(forall|i: int| 0 <= i < front.len() ==> front[i] == leaves[i]);
        if owned_below(a, x, leaves) == leaves.len() {
            assert forall|i: int| 0 <= i < leaves.len() implies within(
                a,
                x,
                #[trigger] leaves[i],
            ) by {
                if i < front.len() {
                    assert(within(a, x, front[i]));
                }
            }
        }
        if forall|i: int| 0 <= i < leaves.len() ==> within(a, x, #[trigger] leaves[i]) {
            assert(within(a, x, leaves[leaves.len() - 1]));
            assert forall|i: int| 0 <= i < front.len() implies within(a, x, #[trigger] front[i]) by {
                assert(within(a, x, leaves[i]));
            }
        }
        if owned_below(a, x, front) > 0 {
            let i = choose|i: int| 0 <= i < front.len() && within(a, x, #[trigger] front[i]);
            assert(within(a, x, leaves[i]));
        }
        if exists|i: int| 0 <= i < leaves.len() && within(a, x, #[trigger] leaves[i]) {
            let i = choose|i: int| 0 <= i < leaves.len() && within(a, x, #[trigger] leaves[i]);
            if i < front.len() {
                assert(within(a, x, front[i]));
            }
        }
    }
}

/// Whatever hits an inner node hits those above it.
pub proof fn lemma_hits_monotone(a: Seq<NodeView>, x: int, y: int, leaves: Seq<int>)
    requires
        is_tree(a),
        within(a, x, y),
        forall|i: int| 0 <= i < leaves.len() ==> 0 <= #[trigger] leaves[i] < a.len(),
    ensures
        owned_below(a, y, leaves) <= owned_below(a, x, leaves),
    decreases leaves.len(),
{
    if leaves.len() > 0 {
        lemma_hits_monotone(a, x, y, leaves.drop_last());
        if within(a, y, leaves.last()) {
            lemma_within_transitive(a, x, y, leaves.last());
        }
    }
}

/// A node that is not live lies in the subtree of a removed one.
pub proof fn lemma_live(a: Seq<NodeView>, id: int)
    requires
        is_tree(a),
        0 <= id < a.len(),
    ensures
        live(a, id) <==> forall|x: int| #[trigger] within(a, x, id) ==> !a[x].removed,
    decreases id,
{
    assert(within(a, id, id));
    if id != 0 {
        let p = a[id].parent->0;
        lemma_live(a, p);
        if live(a, id) {
            assert forall|x: int| #[trigger] within(a, x, id) implies !a[x].removed by {
                if x != id {
                    assert(within(a, x, p));
                }
            }
        } else if !a[id].removed {
            let x = choose|x: int| #[trigger] within(a, x, p) && a[x].removed;
            assert(within(a, x, id));
        }
    }
}

/// Below a node other than `d` itself, `d` hangs under one of its children.
pub proof fn lemma_attached_step(a: Seq<NodeView>, id: int, d: int) -> (c: int)
    requires
        is_tree(a),
        0 <= id < a.len(),
        0 <= d < a.len(),
        attached(a, id, d),
        d != id,
    ensures
        child_of(a, id, c),
        attached(a, c, d),
        id < c,
    decreases d,
{
    let p = a[d].parent->0;
    if p == id {
        assert(attached(a, d, d));
        d
    } else {
        let c = lemma_attached_step(a, id, p);
        assert(attached(a, c, p));
        c
    }
}

/// What hangs under a child hangs under its parent.
pub proof fn lemma_attached_child(a: Seq<NodeView>, id: int, c: int, d: int)
    requires
        is_tree(a),
        0 <= id < a.len(),
        0 <= d < a.len(),
        child_of(a, id, c),
        attached(a, c, d),
    ensures
        attached(a, id, d),
    decreases d,
{
    assert(c != 0);
    if d != c {
        lemma_attached_child(a, id, c, a[d].parent->0);
    } else {
        assert(attached(a, id, id));
    }
}

/// Noting sharers changes nothing but the sharers.
proof fn lemma_shared_among_keeps(
    a: Seq<NodeView>,
    leaves: Seq<int>,
    owners: Seq<Seq<char>>,
    n: nat,
)
    requires
        n <= leaves.len(),
        forall|i: int| 0 <= i < leaves.len() ==> 0 <= #[trigger] leaves[i] < a.len(),
    ensures
        ({
            let b = shared_among(a, leaves, owners, n);
            &&& b.len() == a.len()
            &&& forall|i: int|
                0 <= i < a.len() ==> #[trigger] b[i] == (NodeView { sharers: b[i].sharers, ..a[i] })
        }),
    decreases n,
{
    if n > 0 {
        lemma_shared_among_keeps(a, leaves, owners, (n - 1) as nat);
        assert(0 <= leaves[n - 1] < a.len());
    }
}

/// What every node is after a sample: its counters are those of the placed
/// nodes, credited by the owners in its subtree.
pub proof fn lemma_sampled_node(
    t: TreeView,
    owners: Seq<Seq<char>>,
    subvols: Seq<Seq<char>>,
    ratio: Option<RatioView>,
)
    requires
        is_tree(t.nodes),
        owners.len() > 0,
    ensures
        ({
            let (a, leaves) = placed_all(flagged(t.nodes, subvols), owners);
            let b = sampled(t, owners, subvols, ratio).nodes;
            &&& is_tree(a)
            &&& is_tree(b)
            &&& grown(t.nodes, a)
            &&& grown(a, b)
            &&& b.len() == a.len()
            &&& leaves.len() == owners.len()
            &&& forall|i: int| 0 <= i < leaves.len() ==> 0 <= #[trigger] leaves[i] < a.len()
            &&& forall|i: int|
                0 <= i < a.len() ==> (#[trigger] b[i]).c == credited(
                    a[i].c,
                    owned_below(a, i, leaves),
                    leaves.len(),
                    within(a, i, leaves[0]),
                    ratio,
                ) && b[i].subvol == a[i].subvol
        }),
{
    lemma_flagged(t.nodes, subvols);
    lemma_placed_all(flagged(t.nodes, subvols), owners);
    let (a, leaves) = placed_all(flagged(t.nodes, subvols), owners);
    let c = counted(a, leaves, ratio);
    lemma_shared_among_keeps(c, leaves, owners, owners.len());
    let b = sampled(t, owners, subvols, ratio).nodes;
    assert forall|i: int| 0 <= i < a.len() implies (#[trigger] b[i]).c == credited(
        a[i].c,
        owned_below(a, i, leaves),
        leaves.len(),
        within(a, i, leaves[0]),
        ratio,
    ) && b[i].subvol == a[i].subvol && b[i].name == a[i].name && b[i].parent == a[i].parent
        && b[i].removed == a[i].removed by {
        assert(b[i] == (NodeView { sharers: b[i].sharers, ..c[i] }));
    }
    lemma_same_shape(a, b);
}

/// Placing paths changes the counters of no node and gives new ones none.
pub proof fn lemma_placing_counts(
    a: Seq<NodeView>,
    names: Seq<Seq<char>>,
)
    requires
        is_tree(a),
    ensures
        ({
            let b = placed(a, names).0;
            &&& forall|i: int| 0 <= i < a.len() ==> #[trigger] b[i] == a[i]
            &&& forall|i: int|
                a.len() <= i < b.len() ==> (#[trigger] b[i]).c == no_counts()
        }),
    decreases names.len(),
{
    if names.len() > 0 {
        lemma_placing_counts(a, names.drop_last());
        lemma_placed(a, names.drop_last());
    }
}

pub proof fn lemma_flagging_counts(a: Seq<NodeView>, subvols: Seq<Seq<char>>)
    requires
        is_tree(a),
    ensures
        ({
            let b = flagged(a, subvols);
            &&& forall|i: int|
                0 <= i < a.len() ==> (#[trigger] b[i]).c == a[i].c && (a[i].subvol ==> b[i].subvol)
            &&& forall|i: int|
                a.len() <= i < b.len() ==> (#[trigger] b[i]).c == no_counts()
        }),
    decreases subvols.len(),
{
    if subvols.len() > 0 {
        lemma_flagging_counts(a, subvols.drop_last());
        lemma_flagged(a, subvols.drop_last());
        let b = flagged(a, subvols.drop_last());
        lemma_placing_counts(b, components(subvols.last()));
        lemma_placed(b, components(subvols.last()));
        let (c, id) = placed(b, components(subvols.last()));
        let d = flagged(a, subvols);
        assert forall|i: int| 0 <= i < d.len() implies (#[trigger] d[i]).c == c[i].c && (c[i].subvol
            ==> d[i].subvol) by {}
        assert forall|i: int| 0 <= i < a.len() implies (#[trigger] d[i]).c == a[i].c && (a[i].subvol
            ==> d[i].subvol) by {
            assert(c[i] == b[i]);
        }
        assert forall|i: int| a.len() <= i < d.len() implies (#[trigger] d[i]).c
            == no_counts() by {
            if i < b.len() {
                assert(c[i] == b[i]);
            }
        }
    }
}

pub proof fn lemma_placing_all_counts(a: Seq<NodeView>, paths: Seq<Seq<char>>)
    requires
        is_tree(a),
    ensures
        ({
            let b = placed_all(a, paths).0;
            &&& forall|i: int| 0 <= i < a.len() ==> #[trigger] b[i] == a[i]
            &&& forall|i: int|
                a.len() <= i < b.len() ==> (#[trigger] b[i]).c == no_counts()
        }),
    decreases paths.len(),
{
    if paths.len() > 0 {
        lemma_placing_all_counts(a, paths.drop_last());
        lemma_placed_all(a, paths.drop_last());
        let b = placed_all(a, paths.drop_last()).0;
        lemma_placing_counts(b, components(paths.last()));
        lemma_placed(b, components(paths.last()));
        let c = placed_all(a, paths).0;
        assert forall|i: int| a.len() <= i < c.len() implies (#[trigger] c[i]).c
            == no_counts() by {
            if i < b.len() {
                assert(c[i] == b[i]);
            }
        }
        assert forall|i: int| 0 <= i < a.len() implies #[trigger] c[i] == a[i] by {
            assert(c[i] == b[i]);
        }
    }
}

pub proof fn lemma_within_kept(a: Seq<NodeView>, gone: int, x: int, id: int)
    requires
        is_tree(a),
        0 <= id < a.len(),
    ensures
        within(without(a, gone), x, id) == within(a, x, id),
    decreases id,
{
    let b = without(a, gone);
    assert(b[id].parent == a[id].parent);
    if id > 0 {
        lemma_within_kept(a, gone, x, a[id].parent->0);
    }
}

} // verus!
