//! Saving and restoring a sampling session.

use vstd::prelude::*;

use crate::app::SortBy;
use crate::app::laws::lemma_listing;
use crate::app::model::{above, at_start, listing, AppView};
use crate::sorting::lemma_one_order;
use crate::text::{lemma_name_order, name_less};
use crate::tree::{lists, max_nodes, Counters, NodeId, ROOT, Tree};
use crate::tree::balance::lemma_one_way_down;
use crate::tree::model::{
    attached, child, child_of, empty_tree, fresh, is_tree, named_child, resolve, with_child, within,
    CountersView, NodeView, TreeView,
};
use crate::tree::proofs::{
    grown, lemma_attached_child, lemma_child_is, lemma_child_unique, lemma_flag_keeps,
    lemma_with_child, lemma_within_bound,
};

verus! {

/// What a saved session says about itself.
#[derive(Debug, Clone, Default)]
pub struct Meta {
    pub version: u32,
    pub fsid: String,
    pub device: String,
    /// Sum of allocated chunk lengths (the sampled space).
    pub total_bytes: u64,
    pub disk_bytes: u64,
    pub samples: u64,
    pub timestamp: u64,
}

/// One saved node and everything below it.
pub struct JNode {
    pub name: String,
    pub subvol: bool,
    pub c: Counters,
    pub children: Vec<JNode>,
}

/// A saved node as mathematics.
#[verifier::ext_equal]
pub struct JNodeView {
    pub name: Seq<char>,
    pub subvol: bool,
    pub c: CountersView,
    pub children: Seq<JNodeView>,
}

/// What a saved node is.
pub open spec fn jnode_view(j: JNode) -> JNodeView
    decreases j,
{
    JNodeView {
        name: j.name@,
        subvol: j.subvol,
        c: j.c@,
        children: jnode_views(j.children@),
    }
}

/// What saved nodes are.
pub open spec fn jnode_views(s: Seq<JNode>) -> Seq<JNodeView>
    decreases s,
{
    if s.len() == 0 {
        Seq::empty()
    } else {
        jnode_views(s.drop_last()).push(jnode_view(s.last()))
    }
}

impl View for JNode {
    type V = JNodeView;

    open spec fn view(&self) -> JNodeView {
        jnode_view(*self)
    }
}

// ---- saving ----

/// The nodes listed below `p` in the order of their names. There is one such
/// list ([`lemma_one_list`]).
pub open spec fn by_name(a: Seq<NodeView>, p: int) -> Seq<NodeId> {
    choose|kids: Seq<NodeId>| lists(a, p, kids)
}

/// The children of a node can be listed in one way only.
pub proof fn lemma_one_list(a: Seq<NodeView>, p: int, kids: Seq<NodeId>)
    requires
        lists(a, p, kids),
    ensures
        by_name(a, p) == kids,
{
    let other = by_name(a, p);
    let before = |x: NodeId, y: NodeId| name_less(a[x as int].name, a[y as int].name);
    assert forall|x: NodeId, y: NodeId| #[trigger] before(x, y) implies !before(y, x) by {
        lemma_name_order(a[x as int].name, a[y as int].name, a[x as int].name);
    }
    assert forall|x: NodeId| #[trigger] kids.contains(x) <==> other.contains(x) by {
        if kids.contains(x) {
            let k = choose|k: int| 0 <= k < kids.len() && kids[k] == x;
            assert(child_of(a, p, kids[k] as int));
        }
        if other.contains(x) {
            let k = choose|k: int| 0 <= k < other.len() && other[k] == x;
            assert(child_of(a, p, other[k] as int));
        }
    }
    lemma_one_order(kids, other, before);
}

/// What is saved of `id` and everything listed below it, each directory in the
/// order of the names.
pub open spec fn saved(a: Seq<NodeView>, id: int) -> JNodeView
    decreases a.len() - id, 1nat, 0nat,
{
    JNodeView {
        name: a[id].name,
        subvol: a[id].subvol,
        c: a[id].c,
        children: saved_all(a, id, by_name(a, id)),
    }
}

/// What is saved of `kids`, all of them further down than `p`.
pub open spec fn saved_all(a: Seq<NodeView>, p: int, kids: Seq<NodeId>) -> Seq<JNodeView>
    decreases a.len() - p, 0nat, kids.len(),
{
    if kids.len() == 0 {
        Seq::empty()
    } else {
        let rest = saved_all(a, p, kids.drop_last());
        if p < kids.last() < a.len() {
            rest.push(saved(a, kids.last() as int))
        } else {
            rest
        }
    }
}

proof fn lemma_jnode_views_push(s: Seq<JNode>, j: JNode)
    ensures
        jnode_views(s.push(j)) == jnode_views(s).push(j@),
{
    assert(s.push(j).drop_last() =~= s);
}

/// Saves `id` and everything listed below it.
pub fn to_json(t: &Tree, id: NodeId) -> (r: JNode)
    requires
        t.wf(),
        id < t@.nodes.len(),
    ensures
        r@ == saved(t@.nodes, id as int),
    decreases t@.nodes.len() - id,
{
    let n = t.node(id);
    let kids = t.children(id);
    let mut children: Vec<JNode> = Vec::new();
    let mut i: usize = 0;
    proof {
        t.lemma_wf();
        lemma_one_list(t@.nodes, id as int, kids@);
        assert(kids@.take(0) =~= Seq::<NodeId>::empty());
    }
    while i < kids.len()
        invariant
            t.wf(),
            is_tree(t@.nodes),
            id < t@.nodes.len(),
            lists(t@.nodes, id as int, kids@),
            i <= kids@.len(),
            jnode_views(children@) == saved_all(t@.nodes, id as int, kids@.take(i as int)),
        decreases kids@.len() - i,
    {
        assert(child_of(t@.nodes, id as int, kids@[i as int] as int));
        let j = to_json(t, kids[i]);
        proof {
            lemma_jnode_views_push(children@, j);
            assert(kids@.take(i + 1).drop_last() =~= kids@.take(i as int));
        }
        children.push(j);
        i += 1;
    }
    assert(kids@.take(kids@.len() as int) =~= kids@);
    JNode { name: n.name.clone(), subvol: n.subvol, c: n.c.clone(), children }
}

// ---- restoring ----

/// How many nodes are saved in `j`.
spec fn weight(j: JNodeView) -> nat
    decreases j,
{
    1 + weights(j.children)
}

/// How many nodes are saved in `js`.
spec fn weights(js: Seq<JNodeView>) -> nat
    decreases js,
{
    if js.len() == 0 {
        0
    } else {
        weights(js.drop_last()) + weight(js.last())
    }
}

/// The nodes with `id` taking the counters of `j` and its children below it.
pub open spec fn restored(a: Seq<NodeView>, id: int, j: JNodeView) -> Seq<NodeView>
    decreases j,
{
    restored_all(
        a.update(id, NodeView { c: j.c, subvol: j.subvol, ..a[id] }),
        id,
        j.children,
    )
}

/// The nodes with `js` below `id`.
pub open spec fn restored_all(a: Seq<NodeView>, id: int, js: Seq<JNodeView>) -> Seq<NodeView>
    decreases js,
{
    if js.len() == 0 {
        a
    } else {
        let (b, c) = with_child(restored_all(a, id, js.drop_last()), id, js.last().name);
        restored(b, c, js.last())
    }
}

proof fn lemma_restored(a: Seq<NodeView>, id: int, j: JNodeView)
    requires
        is_tree(a),
        0 <= id < a.len(),
    ensures
        is_tree(restored(a, id, j)),
        grown(a, restored(a, id, j)),
        restored(a, id, j).len() < a.len() + weight(j),
    decreases j,
{
    let n = NodeView { c: j.c, subvol: j.subvol, ..a[id] };
    lemma_flag_keeps(a, id, n);
    lemma_restored_all(a.update(id, n), id, j.children);
}

proof fn lemma_restored_all(a: Seq<NodeView>, id: int, js: Seq<JNodeView>)
    requires
        is_tree(a),
        0 <= id < a.len(),
    ensures
        is_tree(restored_all(a, id, js)),
        grown(a, restored_all(a, id, js)),
        restored_all(a, id, js).len() <= a.len() + weights(js),
    decreases js,
{
    if js.len() > 0 {
        lemma_restored_all(a, id, js.drop_last());
        let b = restored_all(a, id, js.drop_last());
        lemma_with_child(b, id, js.last().name);
        let (c, x) = with_child(b, id, js.last().name);
        lemma_restored(c, x, js.last());
    }
}

proof fn lemma_restored_prefix(a: Seq<NodeView>, id: int, js: Seq<JNodeView>, n: int)
    requires
        is_tree(a),
        0 <= id < a.len(),
        0 <= n <= js.len(),
    ensures
        restored_all(a, id, js.take(n)).len() <= restored_all(a, id, js).len(),
    decreases js.len(),
{
    if n == js.len() {
        assert(js.take(n) =~= js);
    } else {
        let front = js.drop_last();
        assert(front.take(n) =~= js.take(n));
        lemma_restored_prefix(a, id, front, n);
        lemma_restored_all(a, id, front);
        let b = restored_all(a, id, front);
        lemma_with_child(b, id, js.last().name);
        let (c, x) = with_child(b, id, js.last().name);
        lemma_restored(c, x, js.last());
    }
}

proof fn lemma_jnode_views_index(s: Seq<JNode>, i: int)
    requires
        0 <= i < s.len(),
    ensures
        jnode_views(s).len() == s.len(),
        jnode_views(s)[i] == s[i]@,
        jnode_views(s).take(i) == jnode_views(s.take(i)),
    decreases s.len(),
{
    if i < s.len() - 1 {
        lemma_jnode_views_index(s.drop_last(), i);
        assert(s.drop_last().take(i) =~= s.take(i));
        assert(jnode_views(s).take(i) =~= jnode_views(s.drop_last()).take(i));
    } else {
        lemma_jnode_views_len(s.drop_last());
        assert(s.take(i) =~= s.drop_last());
        assert(jnode_views(s).take(i) =~= jnode_views(s.drop_last()));
    }
}

proof fn lemma_jnode_views_len(s: Seq<JNode>)
    ensures
        jnode_views(s).len() == s.len(),
    decreases s.len(),
{
    if s.len() > 0 {
        lemma_jnode_views_len(s.drop_last());
    }
}

/// Puts `j` at `id` and its children below it; says whether there was room for
/// all of them.
fn put(t: &mut Tree, id: NodeId, j: &JNode) -> (r: bool)
    requires
        old(t).wf(),
        id < old(t)@.nodes.len(),
    ensures
        final(t).wf(),
        r == (restored(old(t)@.nodes, id as int, j@).len() <= max_nodes()),
        r ==> final(t)@ == (TreeView {
            nodes: restored(old(t)@.nodes, id as int, j@),
            ..old(t)@
        }),
    decreases *j,
{
    proof {
        t.lemma_wf();
    }
    t.set_counters(id, j.c.clone(), j.subvol);
    let ghost start = t@.nodes;
    let ghost js = jnode_views(j.children@);
    let mut i: usize = 0;
    proof {
        t.lemma_wf();
        lemma_jnode_views_len(j.children@);
        assert(js.take(0) =~= Seq::<JNodeView>::empty());
        assert(restored(old(t)@.nodes, id as int, j@) == restored_all(start, id as int, js));
    }
    while i < j.children.len()
        invariant
            t.wf(),
            is_tree(start),
            id < start.len(),
            restored(old(t)@.nodes, id as int, j@) == restored_all(start, id as int, js),
            i <= j.children@.len(),
            js == jnode_views(j.children@),
            js.len() == j.children@.len(),
            t@.nodes == restored_all(start, id as int, js.take(i as int)),
            t@.total_samples == old(t)@.total_samples,
        decreases j.children@.len() - i,
    {
        proof {
            t.lemma_wf();
            lemma_jnode_views_index(j.children@, i as int);
            lemma_restored_all(start, id as int, js.take(i as int));
            lemma_restored_prefix(start, id as int, js, i + 1);
            lemma_with_child(t@.nodes, id as int, js[i as int].name);
            assert(js.take(i + 1).drop_last() =~= js.take(i as int));
            let (c, x) = with_child(t@.nodes, id as int, js[i as int].name);
            lemma_restored(c, x, js[i as int]);
        }
        let kid = &j.children[i];
        if t.node_count() as u64 == 0x1_0000_0000 && t.child_named(
            id,
            kid.name.as_str(),
        ).is_none() {
            return false;
        }
        let cid = t.add_child(id, kid.name.as_str());
        if !put(t, cid, kid) {
            return false;
        }
        i += 1;
    }
    proof {
        t.lemma_wf();
        assert(js.take(js.len() as int) =~= js);
    }
    true
}

/// Puts `j` at `id` and its children below it.
pub fn from_json(t: &mut Tree, id: NodeId, j: &JNode)
    requires
        old(t).wf(),
        id < old(t)@.nodes.len(),
        restored(old(t)@.nodes, id as int, j@).len() <= max_nodes(),
    ensures
        final(t).wf(),
        final(t)@ == (TreeView {
            nodes: restored(old(t)@.nodes, id as int, j@),
            ..old(t)@
        }),
{
    let fits = put(t, id, j);
    assert(fits);
}

/// A tree with the saved nodes and number of samples, or nothing where the
/// nodes are more than ids can tell apart.
pub fn restore(samples: u64, root: &JNode) -> (r: Option<Tree>)
    ensures
        (r is Some) == (restored(empty_tree().nodes, 0, root@).len() <= max_nodes()),
        r matches Some(t) ==> t.wf() && t@ == (TreeView {
            nodes: restored(empty_tree().nodes, 0, root@),
            total_samples: samples as nat,
        }),
{
    let mut t = Tree::new();
    t.set_samples(samples);
    if put(&mut t, ROOT, root) {
        Some(t)
    } else {
        None
    }
}

// ---- what was saved is restored ----

/// Whether node `x` has the counters and flag of `j`, and its children are
/// those of `j`, all the way down.
spec fn holds(b: Seq<NodeView>, x: int, j: JNodeView) -> bool
    decreases j,
{
    &&& 0 <= x < b.len()
    &&& b[x].c == j.c
    &&& b[x].subvol == j.subvol
    &&& holds_all(b, x, j.children)
    &&& only_named(b, x, j.children)
}

/// Whether `x` has a child for each of `js`.
spec fn holds_all(b: Seq<NodeView>, x: int, js: Seq<JNodeView>) -> bool
    decreases js,
{
    js.len() == 0 || {
        &&& holds_all(b, x, js.drop_last())
        &&& child(b, x, js.last().name) is Some
        &&& holds(b, child(b, x, js.last().name)->0, js.last())
    }
}

/// Whether `x` has no children but those named in `js`.
spec fn only_named(b: Seq<NodeView>, x: int, js: Seq<JNodeView>) -> bool {
    forall|name: Seq<char>| #[trigger]
        child(b, x, name) is Some ==> exists|i: int|
            0 <= i < js.len() && (#[trigger] js[i]).name == name
}

/// Whether no two children share a name, all the way down.
spec fn distinct(j: JNodeView) -> bool
    decreases j,
{
    distinct_all(j.children)
}

spec fn distinct_all(js: Seq<JNodeView>) -> bool
    decreases js,
{
    js.len() == 0 || {
        &&& distinct_all(js.drop_last())
        &&& distinct(js.last())
        &&& forall|i: int| 0 <= i < js.len() - 1 ==> (#[trigger] js[i]).name != js.last().name
    }
}

proof fn lemma_holds_one(b: Seq<NodeView>, x: int, js: Seq<JNodeView>, i: int)
    requires
        holds_all(b, x, js),
        0 <= i < js.len(),
    ensures
        child(b, x, js[i].name) is Some,
        holds(b, child(b, x, js[i].name)->0, js[i]),
    decreases js.len(),
{
    if i < js.len() - 1 {
        lemma_holds_one(b, x, js.drop_last(), i);
    }
}

/// Whether `d` is `b` with nodes added that hang below `id` or below each other.
spec fn hung(b: Seq<NodeView>, d: Seq<NodeView>, id: int) -> bool {
    &&& b.len() <= d.len()
    &&& forall|k: int| 0 <= k < b.len() && k != id ==> #[trigger] d[k] == b[k]
    &&& forall|k: int|
        b.len() <= k < d.len() ==> (#[trigger] d[k]).parent is Some && (d[k].parent->0 == id
            || d[k].parent->0 >= b.len())
}

/// What is added below `id` changes no children further down.
proof fn lemma_child_kept(b: Seq<NodeView>, d: Seq<NodeView>, id: int, z: int, name: Seq<char>)
    requires
        is_tree(b),
        is_tree(d),
        hung(b, d, id),
        b[id].parent == d[id].parent,
        0 <= id < z < b.len(),
    ensures
        child(d, z, name) == child(b, z, name),
{
    lemma_child_is(b, z, name);
    lemma_child_is(d, z, name);
    if child(b, z, name) is Some {
        let c = child(b, z, name)->0;
        assert(b[c].parent == Some(z));
        assert(c != id) by {
            if c == id {
                assert(b[id].parent->0 < id);
            }
        }
        assert(d[c] == b[c]);
        assert(named_child(d, z, name, c));
        lemma_child_unique(d, z, name, c);
    } else if child(d, z, name) is Some {
        let c = child(d, z, name)->0;
        assert(d[c].parent == Some(z));
        if c < b.len() {
            assert(c != id) by {
                if c == id {
                    assert(d[id].parent->0 < id);
                }
            }
            assert(d[c] == b[c]);
            assert(named_child(b, z, name, c));
        }
    }
}

proof fn lemma_holds_kept(b: Seq<NodeView>, d: Seq<NodeView>, id: int, z: int, j: JNodeView)
    requires
        is_tree(b),
        is_tree(d),
        hung(b, d, id),
        b[id].parent == d[id].parent,
        0 <= id < z < b.len(),
        holds(b, z, j),
    ensures
        holds(d, z, j),
    decreases j,
{
    lemma_holds_all_kept(b, d, id, z, j.children);
    assert forall|name: Seq<char>| #[trigger] child(d, z, name) is Some implies exists|i: int|
        0 <= i < j.children.len() && (#[trigger] j.children[i]).name == name by {
        lemma_child_kept(b, d, id, z, name);
        assert(child(b, z, name) is Some);
    }
}

proof fn lemma_holds_all_kept(
    b: Seq<NodeView>,
    d: Seq<NodeView>,
    id: int,
    z: int,
    js: Seq<JNodeView>,
)
    requires
        is_tree(b),
        is_tree(d),
        hung(b, d, id),
        b[id].parent == d[id].parent,
        0 <= id < z < b.len(),
        holds_all(b, z, js),
    ensures
        holds_all(d, z, js),
    decreases js,
{
    if js.len() > 0 {
        let name = js.last().name;
        lemma_holds_all_kept(b, d, id, z, js.drop_last());
        lemma_child_kept(b, d, id, z, name);
        lemma_child_is(b, z, name);
        let c = child(b, z, name)->0;
        assert(b[c].parent == Some(z));
        lemma_holds_kept(b, d, id, c, js.last());
    }
}

/// What is restored below a node without children is there afterwards, and
/// nothing else changed.
proof fn lemma_restored_holds(a: Seq<NodeView>, id: int, j: JNodeView)
    requires
        is_tree(a),
        0 <= id < a.len(),
        forall|c: int| !#[trigger] child_of(a, id, c),
        distinct(j),
    ensures
        hung(a, restored(a, id, j), id),
        holds(restored(a, id, j), id, j),
    decreases j,
{
    let n = NodeView { c: j.c, subvol: j.subvol, ..a[id] };
    let b = a.update(id, n);
    lemma_flag_keeps(a, id, n);
    assert forall|c: int| !#[trigger] child_of(b, id, c) by {
        assert(!child_of(a, id, c));
    }
    lemma_restored_all_holds(b, id, j.children);
    let d = restored(a, id, j);
    assert(d[id] == b[id]);
    assert forall|k: int| 0 <= k < a.len() && k != id implies #[trigger] d[k] == a[k] by {
        assert(d[k] == b[k]);
    }
}

proof fn lemma_restored_all_holds(a: Seq<NodeView>, id: int, js: Seq<JNodeView>)
    requires
        is_tree(a),
        0 <= id < a.len(),
        forall|c: int| !#[trigger] child_of(a, id, c),
        distinct_all(js),
    ensures
        hung(a, restored_all(a, id, js), id),
        restored_all(a, id, js)[id] == a[id],
        holds_all(restored_all(a, id, js), id, js),
        only_named(restored_all(a, id, js), id, js),
    decreases js,
{
    if js.len() == 0 {
        assert forall|name: Seq<char>| child(a, id, name) is None by {
            lemma_child_is(a, id, name);
        }
    } else {
        let front = js.drop_last();
        let j = js.last();
        lemma_restored_all_holds(a, id, front);
        lemma_restored_all(a, id, front);
        let b = restored_all(a, id, front);
        lemma_child_is(b, id, j.name);
        assert(child(b, id, j.name) is None) by {
            if child(b, id, j.name) is Some {
                let i = choose|i: int| 0 <= i < front.len() && (#[trigger] front[i]).name == j.name;
                assert(js[i].name != j.name);
            }
        }
        lemma_with_child(b, id, j.name);
        let (c, x) = with_child(b, id, j.name);
        assert(c == b.push(fresh(j.name, Some(id))) && x == b.len());
        assert forall|k: int| !#[trigger] child_of(c, x, k) by {
            if child_of(c, x, k) {
                assert(c[k].parent->0 < k);
            }
        }
        lemma_restored_holds(c, x, j);
        lemma_restored(c, x, j);
        let d = restored(c, x, j);
        assert(hung(b, d, id)) by {
            assert forall|k: int| 0 <= k < b.len() && k != id implies #[trigger] d[k] == b[k] by {
                assert(d[k] == c[k]);
            }
            assert forall|k: int| b.len() <= k < d.len() implies (#[trigger] d[k]).parent is Some
                && (d[k].parent->0 == id || d[k].parent->0 >= b.len()) by {
                if k == x {
                    assert(d[x].parent == c[x].parent);
                } else {
                    assert(d[k].parent is Some);
                }
            }
        }
        assert(d[id] == c[id] && c[id] == b[id]);
        lemma_front_kept(b, d, id, front);
        assert(d[x].name == c[x].name && d[x].parent == c[x].parent && d[x].removed
            == c[x].removed);
        assert(named_child(d, id, j.name, x));
        lemma_child_unique(d, id, j.name, x);
        assert(hung(a, d, id)) by {
            assert forall|k: int| 0 <= k < a.len() && k != id implies #[trigger] d[k] == a[k] by {
                assert(d[k] == b[k]);
                assert(b[k] == a[k]);
            }
            assert forall|k: int| a.len() <= k < d.len() implies (#[trigger] d[k]).parent is Some
                && (d[k].parent->0 == id || d[k].parent->0 >= a.len()) by {
                if k < b.len() {
                    assert(d[k] == b[k]);
                    assert(b[k].parent is Some);
                }
            }
        }
        assert forall|name: Seq<char>| #[trigger] child(d, id, name) is Some implies exists|
            i: int,
        | 0 <= i < js.len() && (#[trigger] js[i]).name == name by {
            lemma_child_is(d, id, name);
            let k = child(d, id, name)->0;
            assert(d[k].parent == Some(id));
            if k == x {
                assert(js[js.len() - 1].name == name);
            } else if k < b.len() {
                assert(k != id) by {
                    if k == id {
                        assert(d[id].parent->0 < id);
                    }
                }
                assert(d[k] == b[k]);
                assert(named_child(b, id, name, k));
                lemma_child_unique(b, id, name, k);
                let i = choose|i: int| 0 <= i < front.len() && (#[trigger] front[i]).name == name;
                assert(js[i].name == name);
            } else {
                assert(d[k].parent->0 == x || d[k].parent->0 >= c.len());
            }
        }
    }
}

/// Children of `id` that are there already stay as they are.
proof fn lemma_front_kept(b: Seq<NodeView>, d: Seq<NodeView>, id: int, js: Seq<JNodeView>)
    requires
        is_tree(b),
        is_tree(d),
        hung(b, d, id),
        0 <= id < b.len(),
        d[id] == b[id],
        holds_all(b, id, js),
    ensures
        holds_all(d, id, js),
    decreases js,
{
    if js.len() > 0 {
        lemma_front_kept(b, d, id, js.drop_last());
        let name = js.last().name;
        lemma_child_is(b, id, name);
        let c = child(b, id, name)->0;
        assert(b[c].parent == Some(id));
        assert(id < c);
        assert(d[c] == b[c]);
        assert(named_child(d, id, name, c));
        lemma_child_unique(d, id, name, c);
        lemma_holds_kept(b, d, id, c, js.last());
    }
}

/// Every directory can be listed by name.
proof fn lemma_by_name(a: Seq<NodeView>, p: int)
    requires
        is_tree(a),
        a.len() <= max_nodes(),
        0 <= p < a.len(),
    ensures
        lists(a, p, by_name(a, p)),
{
    let v = AppView { dir: p as NodeId, sort: SortBy::Name, ..at_start(true) };
    lemma_listing(v, a);
    let e = listing(v, a);
    assert(v.dir as int == p);
    assert forall|j: int, k: int| 0 <= j < k < e.len() implies name_less(
        a[#[trigger] e[j] as int].name,
        a[#[trigger] e[k] as int].name,
    ) by {
        assert(above(v, a, e[j], e[k]));
    }
    assert(lists(a, p, e));
}

/// A tree holds what is saved of it.
proof fn lemma_saved_holds(a: Seq<NodeView>, id: int)
    requires
        is_tree(a),
        a.len() <= max_nodes(),
        0 <= id < a.len(),
    ensures
        holds(a, id, saved(a, id)),
        distinct(saved(a, id)),
        saved(a, id).name == a[id].name,
    decreases a.len() - id, 1nat, 0nat,
{
    let kids = by_name(a, id);
    lemma_by_name(a, id);
    lemma_saved_all_holds(a, id, kids);
    let js = saved_all(a, id, kids);
    assert forall|name: Seq<char>| #[trigger] child(a, id, name) is Some implies exists|i: int|
        0 <= i < js.len() && (#[trigger] js[i]).name == name by {
        lemma_child_is(a, id, name);
        let c = child(a, id, name)->0;
        let x = c as NodeId;
        assert(child_of(a, id, x as int));
        assert(kids.contains(x));
        let i = choose|i: int| 0 <= i < kids.len() && kids[i] == x;
        assert(js[i].name == a[kids[i] as int].name);
    }
}

proof fn lemma_saved_all_holds(a: Seq<NodeView>, id: int, kids: Seq<NodeId>)
    requires
        is_tree(a),
        a.len() <= max_nodes(),
        0 <= id < a.len(),
        forall|k: int| 0 <= k < kids.len() ==> child_of(a, id, #[trigger] kids[k] as int),
        forall|j: int, k: int|
            0 <= j < k < kids.len() ==> name_less(
                a[#[trigger] kids[j] as int].name,
                a[#[trigger] kids[k] as int].name,
            ),
    ensures
        holds_all(a, id, saved_all(a, id, kids)),
        distinct_all(saved_all(a, id, kids)),
        saved_all(a, id, kids).len() == kids.len(),
        forall|k: int|
            0 <= k < kids.len() ==> (#[trigger] saved_all(a, id, kids)[k]).name == a[kids[k] as
            int].name,
    decreases a.len() - id, 0nat, kids.len(),
{
    if kids.len() > 0 {
        let front = kids.drop_last();
        let c = kids.last();
        assert(child_of(a, id, kids[kids.len() - 1] as int));
        assert forall|k: int| 0 <= k < front.len() implies child_of(
            a,
            id,
            #[trigger] front[k] as int,
        ) by {
            assert(child_of(a, id, kids[k] as int));
        }
        lemma_saved_all_holds(a, id, front);
        lemma_saved_holds(a, c as int);
        let rest = saved_all(a, id, front);
        let js = saved_all(a, id, kids);
        assert(js.drop_last() =~= rest);
        assert(named_child(a, id, a[c as int].name, c as int));
        lemma_child_unique(a, id, a[c as int].name, c as int);
        assert forall|k: int| 0 <= k < kids.len() implies (#[trigger] js[k]).name == a[kids[k] as
        int].name by {
            if k < front.len() {
                assert(rest[k].name == a[front[k] as int].name);
            }
        }
        assert forall|i: int| 0 <= i < js.len() - 1 implies (#[trigger] js[i]).name
            != js.last().name by {
            assert(name_less(
                a[kids[i] as int].name,
                a[kids[kids.len() - 1] as int].name,
            ));
            lemma_name_order(a[c as int].name, a[c as int].name, a[c as int].name);
        }
    }
}

/// Two trees that hold the same lead along the same paths to the same counters.
proof fn lemma_same_paths(
    a: Seq<NodeView>,
    b: Seq<NodeView>,
    j: JNodeView,
    names: Seq<Seq<char>>,
) -> (found: JNodeView)
    requires
        holds(a, 0, j),
        holds(b, 0, j),
    ensures
        resolve(a, names) is Some <==> resolve(b, names) is Some,
        resolve(a, names) is Some ==> holds(a, resolve(a, names)->0, found) && holds(
            b,
            resolve(b, names)->0,
            found,
        ),
    decreases names.len(),
{
    if names.len() == 0 {
        j
    } else {
        let up = lemma_same_paths(a, b, j, names.drop_last());
        let name = names.last();
        if resolve(a, names.drop_last()) is Some {
            let (p, q) = (resolve(a, names.drop_last())->0, resolve(b, names.drop_last())->0);
            if child(a, p, name) is Some || child(b, q, name) is Some {
                let i = choose|i: int|
                    0 <= i < up.children.len() && (#[trigger] up.children[i]).name == name;
                lemma_holds_one(a, p, up.children, i);
                lemma_holds_one(b, q, up.children, i);
                up.children[i]
            } else {
                up
            }
        } else {
            up
        }
    }
}

/// How many of the first `n` nodes are `id` or listed somewhere below it.
spec fn tally_below(a: Seq<NodeView>, id: int, n: nat) -> nat
    decreases n,
{
    if n == 0 {
        0
    } else {
        tally_below(a, id, (n - 1) as nat) + (if attached(a, id, n - 1) {
            1nat
        } else {
            0nat
        })
    }
}

/// The same for several nodes together.
spec fn tally_all(a: Seq<NodeView>, kids: Seq<NodeId>, n: nat) -> nat
    decreases kids.len(),
{
    if kids.len() == 0 {
        0
    } else {
        tally_all(a, kids.drop_last(), n) + tally_below(a, kids.last() as int, n)
    }
}

/// In how many of the `kids` node `d` lies.
spec fn holders(a: Seq<NodeView>, kids: Seq<NodeId>, d: int) -> nat
    decreases kids.len(),
{
    if kids.len() == 0 {
        0
    } else {
        holders(a, kids.drop_last(), d) + (if attached(a, kids.last() as int, d) {
            1nat
        } else {
            0nat
        })
    }
}

proof fn lemma_attached_within(a: Seq<NodeView>, id: int, d: int)
    requires
        attached(a, id, d),
    ensures
        within(a, id, d),
    decreases d,
{
    if d != id {
        lemma_attached_within(a, id, a[d].parent->0);
    }
}

proof fn lemma_one_holder(a: Seq<NodeView>, p: int, kids: Seq<NodeId>, d: int)
    requires
        is_tree(a),
        0 <= p < a.len(),
        0 <= d < a.len(),
        forall|k: int| 0 <= k < kids.len() ==> child_of(a, p, #[trigger] kids[k] as int),
        forall|j: int, k: int|
            0 <= j < k < kids.len() ==> #[trigger] kids[j] != #[trigger] kids[k],
    ensures
        holders(a, kids, d) <= 1,
        holders(a, kids, d) == 1 ==> attached(a, p, d) && d != p,
    decreases kids.len(),
{
    if kids.len() > 0 {
        let front = kids.drop_last();
        let c = kids.last() as int;
        assert(child_of(a, p, kids[kids.len() - 1] as int));
        assert forall|k: int| 0 <= k < front.len() implies child_of(
            a,
            p,
            #[trigger] front[k] as int,
        ) by {
            assert(child_of(a, p, kids[k] as int));
        }
        lemma_one_holder(a, p, front, d);
        if attached(a, c, d) {
            lemma_attached_within(a, c, d);
            lemma_no_other_holder(a, p, front, c, d);
            lemma_attached_child(a, p, c, d);
            lemma_within_bound(a, c, d);
        }
    }
}

proof fn lemma_no_other_holder(a: Seq<NodeView>, p: int, kids: Seq<NodeId>, c: int, d: int)
    requires
        is_tree(a),
        0 <= d < a.len(),
        child_of(a, p, c),
        0 < c,
        within(a, c, d),
        forall|k: int|
            0 <= k < kids.len() ==> child_of(a, p, #[trigger] kids[k] as int) && kids[k] != c,
    ensures
        holders(a, kids, d) == 0,
    decreases kids.len(),
{
    if kids.len() > 0 {
        let front = kids.drop_last();
        let e = kids[kids.len() - 1];
        assert(child_of(a, p, e as int));
        assert forall|k: int| 0 <= k < front.len() implies child_of(
            a,
            p,
            #[trigger] front[k] as int,
        ) && front[k] != c by {
            assert(child_of(a, p, kids[k] as int));
        }
        lemma_no_other_holder(a, p, front, c, d);
        if attached(a, e as int, d) {
            lemma_attached_within(a, e as int, d);
            lemma_one_way_down(a, p, c, e as int, d);
        }
    }
}

proof fn lemma_tally_all_step(a: Seq<NodeView>, kids: Seq<NodeId>, n: nat)
    requires
        n > 0,
    ensures
        tally_all(a, kids, n) == tally_all(a, kids, (n - 1) as nat) + holders(a, kids, n - 1),
    decreases kids.len(),
{
    if kids.len() > 0 {
        lemma_tally_all_step(a, kids.drop_last(), n);
    }
}

proof fn lemma_tally_all_none(a: Seq<NodeView>, kids: Seq<NodeId>)
    ensures
        tally_all(a, kids, 0) == 0,
    decreases kids.len(),
{
    if kids.len() > 0 {
        lemma_tally_all_none(a, kids.drop_last());
    }
}

proof fn lemma_tally_splits(a: Seq<NodeView>, p: int, kids: Seq<NodeId>, n: nat)
    requires
        is_tree(a),
        0 <= p < a.len(),
        n <= a.len(),
        forall|k: int| 0 <= k < kids.len() ==> child_of(a, p, #[trigger] kids[k] as int),
        forall|j: int, k: int|
            0 <= j < k < kids.len() ==> #[trigger] kids[j] != #[trigger] kids[k],
    ensures
        tally_all(a, kids, n) + (if p < n {
            1nat
        } else {
            0nat
        }) <= tally_below(a, p, n),
    decreases n,
{
    if n == 0 {
        lemma_tally_all_none(a, kids);
    } else {
        lemma_tally_splits(a, p, kids, (n - 1) as nat);
        lemma_tally_all_step(a, kids, n);
        lemma_one_holder(a, p, kids, n - 1);
    }
}

proof fn lemma_saved_weight(a: Seq<NodeView>, id: int)
    requires
        is_tree(a),
        a.len() <= max_nodes(),
        0 <= id < a.len(),
    ensures
        weight(saved(a, id)) <= tally_below(a, id, a.len()),
    decreases a.len() - id, 1nat, 0nat,
{
    let kids = by_name(a, id);
    lemma_by_name(a, id);
    assert forall|j: int, k: int| 0 <= j < k < kids.len() implies #[trigger] kids[j]
        != #[trigger] kids[k] by {
        lemma_name_order(
            a[kids[j] as int].name,
            a[kids[k] as int].name,
            a[kids[j] as int].name,
        );
    }
    lemma_saved_weights(a, id, kids);
    lemma_tally_splits(a, id, kids, a.len());
}

proof fn lemma_saved_weights(a: Seq<NodeView>, id: int, kids: Seq<NodeId>)
    requires
        is_tree(a),
        a.len() <= max_nodes(),
        0 <= id < a.len(),
        forall|k: int| 0 <= k < kids.len() ==> child_of(a, id, #[trigger] kids[k] as int),
    ensures
        weights(saved_all(a, id, kids)) <= tally_all(a, kids, a.len()),
    decreases a.len() - id, 0nat, kids.len(),
{
    if kids.len() > 0 {
        let front = kids.drop_last();
        let c = kids[kids.len() - 1];
        assert(child_of(a, id, c as int));
        assert forall|k: int| 0 <= k < front.len() implies child_of(
            a,
            id,
            #[trigger] front[k] as int,
        ) by {
            assert(child_of(a, id, kids[k] as int));
        }
        lemma_saved_weights(a, id, front);
        lemma_saved_weight(a, c as int);
        let rest = saved_all(a, id, front);
        assert(saved_all(a, id, kids).drop_last() =~= rest);
    }
}

proof fn lemma_tally_bound(a: Seq<NodeView>, id: int, n: nat)
    ensures
        tally_below(a, id, n) <= n,
    decreases n,
{
    if n > 0 {
        lemma_tally_bound(a, id, (n - 1) as nat);
    }
}

/// Restoring what was saved succeeds and gives a tree in which every path
/// leads somewhere exactly if it did, and to the same counters and flag.
pub proof fn law_saved_session_is_restored(a: Seq<NodeView>, names: Seq<Seq<char>>)
    requires
        is_tree(a),
        a.len() <= max_nodes(),
    ensures
        restored(empty_tree().nodes, 0, saved(a, 0)).len() <= max_nodes(),
        ({
            let b = restored(empty_tree().nodes, 0, saved(a, 0));
            &&& is_tree(b)
            &&& resolve(b, names) is Some <==> resolve(a, names) is Some
            &&& resolve(a, names) is Some ==> b[resolve(b, names)->0].c == a[resolve(
                a,
                names,
            )->0].c && b[resolve(b, names)->0].subvol == a[resolve(a, names)->0].subvol
        }),
{
    let e = empty_tree().nodes;
    let j = saved(a, 0);
    assert(is_tree(e));
    assert forall|c: int| !#[trigger] child_of(e, 0, c) by {}
    lemma_saved_holds(a, 0);
    lemma_restored(e, 0, j);
    lemma_restored_holds(e, 0, j);
    let b = restored(e, 0, j);
    let found = lemma_same_paths(a, b, j, names);
    lemma_saved_weight(a, 0);
    lemma_tally_bound(a, 0, a.len());
}

/// Whether `j` is one of the entries that node `id` lists, saved.
pub open spec fn is_saved_entry(a: Seq<NodeView>, id: int, j: JNodeView) -> bool {
    exists|k: int| #[trigger] child_of(a, id, k) && j == saved(a, k)
}

/// A saved node says what the node is: its name, its flag and each of its counters. Its
/// children are the saved ones of the entries that it lists, each once and by name.
pub proof fn law_saved_node_says_what_the_node_is(a: Seq<NodeView>, id: int, c: NodeId)
    requires
        is_tree(a),
        a.len() <= max_nodes(),
        0 <= id < a.len(),
    ensures
        ({
            let j = saved(a, id);
            &&& j.name == a[id].name && j.subvol == a[id].subvol
            &&& j.c.represented == a[id].c.represented && j.c.distributed == a[id].c.distributed
            &&& j.c.exclusive == a[id].c.exclusive && j.c.shared == a[id].c.shared
            &&& j.c.comp_samples == a[id].c.comp_samples && j.c.uncompressed
                == a[id].c.uncompressed
            &&& forall|x: int, y: int|
                0 <= x < y < j.children.len() ==> name_less(
                    (#[trigger] j.children[x]).name,
                    (#[trigger] j.children[y]).name,
                )
            &&& c < a.len() && a[c as int].parent == Some(id) && !a[c as int].removed
                ==> j.children.contains(saved(a, c as int))
            &&& forall|x: int|
                0 <= x < j.children.len() ==> #[trigger] is_saved_entry(a, id, j.children[x])
        }),
{
    let kids = by_name(a, id);
    lemma_by_name(a, id);
    lemma_saved_all_holds(a, id, kids);
    lemma_saved_kids(a, id, kids);
    let j = saved(a, id);
    assert forall|x: int, y: int| 0 <= x < y < j.children.len() implies name_less(
        (#[trigger] j.children[x]).name,
        (#[trigger] j.children[y]).name,
    ) by {
        assert(name_less(a[kids[x] as int].name, a[kids[y] as int].name));
    }
    if child_of(a, id, c as int) {
        assert(kids.contains(c));
        let k = choose|k: int| 0 <= k < kids.len() && kids[k] == c;
        assert(j.children[k] == saved(a, c as int));
    }
    assert forall|x: int| 0 <= x < j.children.len() implies #[trigger] is_saved_entry(
        a,
        id,
        j.children[x],
    ) by {
        assert(child_of(a, id, kids[x] as int));
    }
}

proof fn lemma_saved_kids(a: Seq<NodeView>, id: int, kids: Seq<NodeId>)
    requires
        is_tree(a),
        0 <= id < a.len(),
        forall|k: int| 0 <= k < kids.len() ==> child_of(a, id, #[trigger] kids[k] as int),
    ensures
        saved_all(a, id, kids).len() == kids.len(),
        forall|k: int|
            0 <= k < kids.len() ==> #[trigger] saved_all(a, id, kids)[k] == saved(
                a,
                kids[k] as int,
            ),
    decreases kids.len(),
{
    if kids.len() > 0 {
        let front = kids.drop_last();
        assert forall|k: int| 0 <= k < front.len() implies child_of(
            a,
            id,
            #[trigger] front[k] as int,
        ) by {
            assert(child_of(a, id, kids[k] as int));
        }
        lemma_saved_kids(a, id, front);
        assert(child_of(a, id, kids[kids.len() - 1] as int));
        let r = saved_all(a, id, kids);
        assert forall|k: int| 0 <= k < kids.len() implies #[trigger] r[k] == saved(
            a,
            kids[k] as int,
        ) by {
            if k < front.len() {
                assert(r[k] == saved_all(a, id, front)[k]);
            }
        }
    }
}

/// The node that a saved one is restored to takes over its flag and its counters,
/// whatever it had, and keeps its name and its place. Nodes with lower numbers stay as
/// they are.
pub proof fn law_restored_node_takes_over_what_was_saved(
    a: Seq<NodeView>,
    id: int,
    j: JNodeView,
    k: int,
)
    requires
        is_tree(a),
        0 <= k <= id < a.len(),
    ensures
        ({
            let b = restored(a, id, j);
            &&& b.len() >= a.len()
            &&& k < id ==> b[k] == a[k]
            &&& b[id].subvol == j.subvol
            &&& b[id].c == j.c
            &&& b[id].name == a[id].name && b[id].parent == a[id].parent
            &&& b[id].removed == a[id].removed && b[id].sharers == a[id].sharers
        }),
{
    let n = NodeView { c: j.c, subvol: j.subvol, ..a[id] };
    lemma_flag_keeps(a, id, n);
    lemma_restored_above(a.update(id, n), id, j.children);
}

/// Restoring children changes nothing up to the node that they are restored to.
proof fn lemma_restored_above(a: Seq<NodeView>, id: int, js: Seq<JNodeView>)
    requires
        is_tree(a),
        0 <= id < a.len(),
    ensures
        restored_all(a, id, js).len() >= a.len(),
        forall|k: int| 0 <= k <= id ==> #[trigger] restored_all(a, id, js)[k] == a[k],
    decreases js,
{
    if js.len() > 0 {
        let front = js.drop_last();
        lemma_restored_all(a, id, front);
        lemma_restored_above(a, id, front);
        let mid = restored_all(a, id, front);
        let (b, c) = with_child(mid, id, js.last().name);
        lemma_with_child(mid, id, js.last().name);
        let n = NodeView { c: js.last().c, subvol: js.last().subvol, ..b[c] };
        lemma_flag_keeps(b, c, n);
        lemma_restored_above(b.update(c, n), c, js.last().children);
        assert(restored(b, c, js.last()) == restored_all(b.update(c, n), c, js.last().children));
        assert(restored_all(a, id, js) == restored(b, c, js.last()));
        assert forall|k: int| 0 <= k <= id implies #[trigger] restored_all(a, id, js)[k]
            == a[k] by {
            assert(b[k] == mid[k]);
            assert(mid[k] == a[k]);
        }
    }
}

} // verus!
