//! Whether a sample's nodes can all be told apart by ids, found out without
//! making them.

use vstd::prelude::*;

use crate::text::{components, components_of, owned, same_text, texts};
use crate::tree::{max_nodes, NodeId, ROOT, Sample, Tree};
use crate::tree::model::{
    child, flagged, fresh, is_tree, name_count, named_child, placed, placed_all, with_child,
    NodeView,
};
use crate::tree::proofs::{
    grown, lemma_child_is, lemma_child_unique, lemma_flag_keeps, lemma_flagged, lemma_placed,
    lemma_placed_all, lemma_placed_prefix,
};

verus! {

/// Nodes that are to be made: where each hangs, and its name.
struct Draft {
    parents: Vec<NodeId>,
    names: Vec<String>,
}

impl Draft {
    spec fn wf(self) -> bool {
        self.parents@.len() == self.names@.len()
    }

    /// The nodes with those to be made after them.
    spec fn after(self, a: Seq<NodeView>) -> Seq<NodeView> {
        a + Seq::new(
            self.names@.len(),
            |j: int| fresh(self.names@[j]@, Some(self.parents@[j] as int)),
        )
    }

    /// Where node `p` has a child called `name` among those to be made.
    fn find(&self, p: NodeId, name: &str) -> (r: Option<usize>)
        requires
            self.wf(),
        ensures
            match r {
                Some(j) => j < self.names@.len() && self.parents@[j as int] == p
                    && self.names@[j as int]@ == name@,
                None => forall|j: int|
                    0 <= j < self.names@.len() ==> !(self.parents@[j] == p && (
                    #[trigger] self.names@[j])@ == name@),
            },
    {
        let mut j: usize = 0;
        while j < self.names.len()
            invariant
                self.wf(),
                j <= self.names@.len(),
                forall|k: int|
                    0 <= k < j ==> !(self.parents@[k] == p && (#[trigger] self.names@[k])@
                        == name@),
            decreases self.names@.len() - j,
        {
            if self.parents[j] == p && same_text(self.names[j].as_str(), name) {
                return Some(j);
            }
            j += 1;
        }
        None
    }
}

/// The child of `p` called `name`, to be made where there is none; nothing where
/// there is no room for it.
fn draft_child(t: &Tree, d: &mut Draft, p: NodeId, name: &str) -> (r: Option<NodeId>)
    requires
        t.wf(),
        old(d).wf(),
        is_tree(old(d).after(t@.nodes)),
        p < old(d).after(t@.nodes).len() <= max_nodes(),
    ensures
        final(d).wf(),
        match r {
            Some(c) => (final(d).after(t@.nodes), c as int) == with_child(
                old(d).after(t@.nodes),
                p as int,
                name@,
            ) && final(d).after(t@.nodes).len() <= max_nodes(),
            None => with_child(old(d).after(t@.nodes), p as int, name@).0.len() > max_nodes(),
        },
{
    let n = t.node_count();
    let ghost a = t@.nodes;
    let ghost all = d.after(a);
    proof {
        t.lemma_wf();
        lemma_child_is(a, p as int, name@);
        lemma_child_is(all, p as int, name@);
        assert forall|i: int| 0 <= i < a.len() implies #[trigger] all[i] == a[i] by {}
        assert forall|j: int| 0 <= j < d.names@.len() implies #[trigger] d.names@[j]@ == all[
            a.len() + j
        ].name && all[a.len() + j].parent == Some(d.parents@[j] as int) by {}
    }
    if (p as usize) < n {
        if let Some(c) = t.child_named(p, name) {
            proof {
                assert(named_child(a, p as int, name@, c as int));
                assert(all[c as int] == a[c as int]);
                assert(named_child(all, p as int, name@, c as int));
                lemma_child_unique(all, p as int, name@, c as int);
            }
            return Some(c);
        }
    }
    if let Some(j) = d.find(p, name) {
        proof {
            assert(d.names@[j as int]@ == all[a.len() + j].name);
            assert(named_child(all, p as int, name@, a.len() + j));
            lemma_child_unique(all, p as int, name@, a.len() + j);
        }
        return Some((n + j) as NodeId);
    }
    proof {
        if child(all, p as int, name@) is Some {
            let c = child(all, p as int, name@)->0;
            assert(named_child(all, p as int, name@, c));
            if c < a.len() {
                assert(all[c] == a[c]);
                assert(a[c].parent == Some(p as int));
                assert(named_child(a, p as int, name@, c));
            } else {
                let j = c - a.len();
                assert(d.names@[j]@ == all[a.len() + j].name);
            }
        }
    }
    let count = n as u64 + d.names.len() as u64;
    if count == 0x1_0000_0000 {
        return None;
    }
    d.parents.push(p);
    d.names.push(owned(name));
    assert(d.after(a) =~= all.push(fresh(name@, Some(p as int))));
    Some(count as NodeId)
}

/// Drafts what is missing of a path; says whether there is room for it.
fn draft_path(t: &Tree, d: &mut Draft, path: &str) -> (r: bool)
    requires
        t.wf(),
        old(d).wf(),
        is_tree(old(d).after(t@.nodes)),
        old(d).after(t@.nodes).len() <= max_nodes(),
    ensures
        final(d).wf(),
        r == (placed(old(d).after(t@.nodes), components(path@)).0.len() <= max_nodes()),
        r ==> final(d).after(t@.nodes) == placed(old(d).after(t@.nodes), components(path@)).0,
{
    let names = components_of(path);
    let ghost all = texts(names@);
    let ghost a = d.after(t@.nodes);
    let mut cur: NodeId = ROOT;
    let mut i: usize = 0;
    assert(all.take(0) =~= Seq::<Seq<char>>::empty());
    while i < names.len()
        invariant
            t.wf(),
            d.wf(),
            i <= names@.len(),
            all == texts(names@),
            all == components(path@),
            a == old(d).after(t@.nodes),
            is_tree(a),
            (d.after(t@.nodes), cur as int) == placed(a, all.take(i as int)),
            d.after(t@.nodes).len() <= max_nodes(),
        decreases names@.len() - i,
    {
        proof {
            assert(all.take(i + 1).drop_last() =~= all.take(i as int));
            assert(all.take(i + 1).last() == names@[i as int]@);
            lemma_placed(a, all.take(i as int));
            lemma_placed_prefix(a, all, i + 1);
        }
        match draft_child(t, d, cur, names[i].as_str()) {
            Some(c) => {
                cur = c;
            },
            None => {
                return false;
            },
        }
        i += 1;
    }
    assert(all.take(all.len() as int) =~= all);
    true
}

/// Whether two sequences of nodes differ in no name, place or removal.
spec fn same_shape(a: Seq<NodeView>, b: Seq<NodeView>) -> bool {
    grown(a, b) && a.len() == b.len()
}

proof fn lemma_child_shape(a: Seq<NodeView>, b: Seq<NodeView>, p: int, name: Seq<char>)
    requires
        is_tree(a),
        is_tree(b),
        same_shape(a, b),
    ensures
        child(a, p, name) == child(b, p, name),
{
    lemma_child_is(a, p, name);
    lemma_child_is(b, p, name);
    if child(a, p, name) is Some {
        let c = child(a, p, name)->0;
        assert(b[c].name == a[c].name);
        assert(named_child(b, p, name, c));
        lemma_child_unique(b, p, name, c);
    } else if child(b, p, name) is Some {
        let c = child(b, p, name)->0;
        assert(b[c].name == a[c].name);
        assert(named_child(a, p, name, c));
    }
}

/// A path needs the same nodes in trees of the same shape.
proof fn lemma_placed_shape(a: Seq<NodeView>, b: Seq<NodeView>, names: Seq<Seq<char>>)
    requires
        is_tree(a),
        is_tree(b),
        same_shape(a, b),
    ensures
        same_shape(placed(a, names).0, placed(b, names).0),
        placed(a, names).1 == placed(b, names).1,
    decreases names.len(),
{
    if names.len() > 0 {
        let front = names.drop_last();
        lemma_placed_shape(a, b, front);
        lemma_placed(a, front);
        lemma_placed(b, front);
        let (x, p) = placed(a, front);
        let (y, q) = placed(b, front);
        lemma_child_shape(x, y, p, names.last());
        let (c, d) = (placed(a, names).0, placed(b, names).0);
        assert forall|i: int| 0 <= i < c.len() implies (#[trigger] d[i]).name == c[i].name
            && d[i].parent == c[i].parent && d[i].removed == c[i].removed by {
            if i < x.len() {
                assert(y[i].name == x[i].name);
            }
        }
    }
}

pub proof fn lemma_flagged_prefix(a: Seq<NodeView>, subvols: Seq<Seq<char>>, k: int)
    requires
        is_tree(a),
        0 <= k <= subvols.len(),
    ensures
        flagged(a, subvols.take(k)).len() <= flagged(a, subvols).len(),
    decreases subvols.len(),
{
    if k == subvols.len() {
        assert(subvols.take(k) =~= subvols);
    } else {
        let front = subvols.drop_last();
        assert(front.take(k) =~= subvols.take(k));
        lemma_flagged_prefix(a, front, k);
        lemma_flagged(a, front);
        lemma_placed(flagged(a, front), components(subvols.last()));
    }
}

pub proof fn lemma_placed_all_prefix(a: Seq<NodeView>, paths: Seq<Seq<char>>, k: int)
    requires
        is_tree(a),
        0 <= k <= paths.len(),
    ensures
        placed_all(a, paths.take(k)).0.len() <= placed_all(a, paths).0.len(),
    decreases paths.len(),
{
    if k == paths.len() {
        assert(paths.take(k) =~= paths);
    } else {
        let front = paths.drop_last();
        assert(front.take(k) =~= paths.take(k));
        lemma_placed_all_prefix(a, front, k);
        lemma_placed_all(a, front);
        lemma_placed(placed_all(a, front).0, components(paths.last()));
    }
}

/// Whether the names of `paths` are no more than `room`: if so, how much room
/// they leave.
fn room_after_names(paths: &Vec<String>, room: u64) -> (r: Option<u64>)
    ensures
        r matches Some(left) ==> left + name_count(texts(paths@)) == room,
{
    let ghost all = texts(paths@);
    let mut left: u64 = room;
    let mut i: usize = 0;
    assert(all.take(0) =~= Seq::<Seq<char>>::empty());
    while i < paths.len()
        invariant
            i <= paths@.len(),
            all == texts(paths@),
            left + name_count(all.take(i as int)) == room,
        decreases paths@.len() - i,
    {
        let names = components_of(paths[i].as_str());
        proof {
            assert(all.take(i + 1).drop_last() =~= all.take(i as int));
            assert(all[i as int] == paths@[i as int]@);
            assert(texts(names@).len() == names@.len());
        }
        if names.len() as u64 > left {
            return None;
        }
        left = left - names.len() as u64;
        i += 1;
    }
    assert(all.take(all.len() as int) =~= all);
    Some(left)
}

/// Whether there is room for a node of each name, which is room enough.
fn has_ample_room(t: &Tree, s: &Sample) -> (r: bool)
    requires
        t.wf(),
    ensures
        r ==> t@.nodes.len() + name_count(texts(s.subvols@)) + name_count(texts(s.owners@))
            <= max_nodes(),
{
    proof {
        t.lemma_wf();
    }
    let room: u64 = 0x1_0000_0000 - t.node_count() as u64;
    match room_after_names(&s.subvols, room) {
        Some(left) => room_after_names(&s.owners, left).is_some(),
        None => false,
    }
}

/// Whether there is room for the nodes that a sample needs.
pub(crate) fn has_room(t: &Tree, s: &Sample) -> (r: bool)
    requires
        t.wf(),
    ensures
        r == (placed_all(flagged(t@.nodes, texts(s.subvols@)), texts(s.owners@)).0.len()
            <= max_nodes()),
{
    let ghost a = t@.nodes;
    let ghost subvols = texts(s.subvols@);
    let ghost owners = texts(s.owners@);
    let ghost f = flagged(a, subvols);
    proof {
        t.lemma_wf();
        lemma_flagged(a, subvols);
        lemma_placed_all(f, owners);
    }
    if has_ample_room(t, s) {
        return true;
    }
    let mut d = Draft { parents: Vec::new(), names: Vec::new() };
    let mut i: usize = 0;
    assert(d.after(a) =~= a);
    assert(subvols.take(0) =~= Seq::<Seq<char>>::empty());
    while i < s.subvols.len()
        invariant
            t.wf(),
            d.wf(),
            a == t@.nodes,
            is_tree(a),
            subvols == texts(s.subvols@),
            owners == texts(s.owners@),
            f == flagged(a, subvols),
            f.len() <= placed_all(f, owners).0.len(),
            i <= s.subvols@.len(),
            is_tree(d.after(a)),
            same_shape(d.after(a), flagged(a, subvols.take(i as int))),
            d.after(a).len() <= max_nodes(),
        decreases s.subvols@.len() - i,
    {
        let ghost was = d.after(a);
        let ghost front = flagged(a, subvols.take(i as int));
        proof {
            let names = components(subvols[i as int]);
            assert(subvols[i as int] == s.subvols@[i as int]@);
            assert(subvols.take(i + 1).drop_last() =~= subvols.take(i as int));
            lemma_flagged(a, subvols.take(i as int));
            lemma_flagged_prefix(a, subvols, i + 1);
            lemma_placed(was, names);
            lemma_placed(front, names);
            lemma_placed_shape(was, front, names);
            let (c, id) = placed(front, names);
            lemma_flag_keeps(c, id, NodeView { subvol: true, ..c[id] });
        }
        if !draft_path(t, &mut d, s.subvols[i].as_str()) {
            return false;
        }
        i += 1;
    }
    assert(subvols.take(subvols.len() as int) =~= subvols);
    assert(owners.take(0) =~= Seq::<Seq<char>>::empty());
    i = 0;
    while i < s.owners.len()
        invariant
            t.wf(),
            d.wf(),
            a == t@.nodes,
            owners == texts(s.owners@),
            subvols == texts(s.subvols@),
            f == flagged(a, subvols),
            is_tree(f),
            i <= s.owners@.len(),
            is_tree(d.after(a)),
            same_shape(d.after(a), placed_all(f, owners.take(i as int)).0),
            d.after(a).len() <= max_nodes(),
        decreases s.owners@.len() - i,
    {
        let ghost was = d.after(a);
        let ghost front = placed_all(f, owners.take(i as int)).0;
        proof {
            let names = components(owners[i as int]);
            assert(owners[i as int] == s.owners@[i as int]@);
            assert(owners.take(i + 1).drop_last() =~= owners.take(i as int));
            lemma_placed_all(f, owners.take(i as int));
            lemma_placed_all_prefix(f, owners, i + 1);
            lemma_placed(was, names);
            lemma_placed_shape(was, front, names);
        }
        if !draft_path(t, &mut d, s.owners[i].as_str()) {
            return false;
        }
        i += 1;
    }
    assert(owners.take(owners.len() as int) =~= owners);
    true
}

} // verus!
