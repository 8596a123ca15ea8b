//! Arena-allocated path trie holding per-node sample counters.

pub mod balance;
pub mod effects;
pub mod laws;
pub mod model;
pub mod proofs;
pub mod room;

use vstd::prelude::*;

use crate::rational::{lemma_quotient_sign, quotient, Rational, Sign};
use crate::text::{
    components, components_of, join_text, joined, lemma_name_order, lemma_texts_push, name_less,
    name_order, owned, same_text, starts_with_char, texts, Order,
};
use crate::tree::laws::{counted_once, law_counts_stay_within_samples, law_ids_are_stable};
use crate::tree::model::{
    attached, can_take, child, child_of, co_owners, counted, counts_below, credited, empty_tree,
    flagged, fresh, holds_subvol, is_tree, live, measured, named_child, no_counts, noted,
    owned_below, path, placed, placed_all, reduced, resolve, sampled, shared_among, special,
    with_child, within, without, CountersView, NodeView, RatioView, TreeView,
};
use crate::tree::proofs::{
    grown, lemma_attached_child, lemma_attached_step, lemma_child_is, lemma_child_unique,
    lemma_flagged, lemma_hits_bound, lemma_placed, lemma_placed_all, lemma_placed_prefix,
    lemma_push_child, lemma_same_shape, lemma_within_bound, lemma_within_shape,
    lemma_within_transitive,
};
use crate::tree::room::{has_room, lemma_flagged_prefix, lemma_placed_all_prefix};

verus! {

pub type NodeId = u32;

pub const ROOT: NodeId = 0;

pub const MAX_SHARERS: usize = 5;

/// Uncompressed and on-disk size of an extent.
#[derive(Debug, Clone, Copy, PartialEq, Eq)]
pub struct Ratio {
    pub ram: u64,
    pub disk: u64,
}

/// The ratio as two numbers.
pub open spec fn ratio_view(r: Option<Ratio>) -> Option<RatioView> {
    match r {
        Some(x) => Some(RatioView { ram: x.ram as nat, disk: x.disk as nat }),
        None => None,
    }
}

/// One resolved sample.
#[derive(Debug, Clone, Default)]
pub struct Sample {
    /// Owner paths relative to the fs top level ("a/b/c"), canonical owner first.
    /// Non-file samples use a single bucket path such as "<METADATA>".
    pub owners: Vec<String>,
    /// Subvolume root paths seen while resolving (flags those nodes).
    pub subvols: Vec<String>,
    /// Sizes of the canonical owner's extent, when known.
    pub ratio: Option<Ratio>,
}

impl Sample {
    /// A sample that belongs to one bucket.
    pub fn bucket(path: &str) -> (r: Self)
        ensures
            texts(r.owners@) == seq![path@],
            r.subvols@.len() == 0,
            r.ratio is None,
    {
        let mut owners: Vec<String> = Vec::new();
        owners.push(owned(path));
        proof {
            assert(texts(owners@) =~= seq![path@]);
        }
        Sample { owners, subvols: Vec::new(), ratio: None }
    }
}

#[derive(Debug)]
pub struct Counters {
    /// Samples whose canonical owner lies here.
    pub represented: u64,
    /// Shares of samples: each splits evenly across its owners.
    pub distributed: Rational,
    /// Samples all of whose owners lie here.
    pub exclusive: u64,
    /// Samples some, but not all, of whose owners lie here.
    pub shared: u64,
    /// Represented samples of known compression.
    pub comp_samples: u64,
    /// The sum of their ratios of uncompressed to on-disk size.
    pub uncompressed: Rational,
}

impl View for Counters {
    type V = CountersView;

    open spec fn view(&self) -> CountersView {
        CountersView {
            represented: self.represented as nat,
            distributed: self.distributed@,
            exclusive: self.exclusive as nat,
            shared: self.shared as nat,
            comp_samples: self.comp_samples as nat,
            uncompressed: self.uncompressed@,
        }
    }
}

impl Clone for Counters {
    fn clone(&self) -> (r: Self)
        ensures
            r@ == self@,
    {
        Counters {
            represented: self.represented,
            distributed: self.distributed.clone(),
            exclusive: self.exclusive,
            shared: self.shared,
            comp_samples: self.comp_samples,
            uncompressed: self.uncompressed.clone(),
        }
    }
}

impl Default for Counters {
    fn default() -> (r: Self)
        ensures
            r@ == no_counts(),
    {
        Counters {
            represented: 0,
            distributed: Rational::zero(),
            exclusive: 0,
            shared: 0,
            comp_samples: 0,
            uncompressed: Rational::zero(),
        }
    }
}

impl PartialEq for Counters {
    fn eq(&self, other: &Self) -> (r: bool) {
        self.represented == other.represented && self.distributed == other.distributed
            && self.exclusive == other.exclusive && self.shared == other.shared
            && self.comp_samples == other.comp_samples && self.uncompressed == other.uncompressed
    }
}

impl vstd::std_specs::cmp::PartialEqSpecImpl for Counters {
    open spec fn obeys_eq_spec() -> bool {
        true
    }

    open spec fn eq_spec(&self, other: &Self) -> bool {
        self@ == other@
    }
}

impl Counters {
    /// Disk bytes per uncompressed byte, as dividend and divisor; `None` when no
    /// sample had a known ratio.
    pub fn ratio(&self) -> (r: Option<(u64, Rational)>)
        ensures
            r is Some <==> self@.comp_samples > 0 && self@.uncompressed > 0 as real,
            r matches Some((n, d)) ==> n == self@.comp_samples && d@ == self@.uncompressed,
            measured(self@) == (match r {
                Some((n, d)) => Some((n as nat, d@)),
                None => None,
            }),
    {
        if self.comp_samples > 0 && self.uncompressed.sign() == Sign::Positive {
            Some((self.comp_samples, self.uncompressed.clone()))
        } else {
            None
        }
    }

    fn subtract(&mut self, o: &Counters)
        ensures
            final(self)@ == reduced(old(self)@, o@),
    {
        self.represented = self.represented.saturating_sub(o.represented);
        self.distributed.subtract(&o.distributed);
        self.exclusive = self.exclusive.saturating_sub(o.exclusive);
        self.shared = self.shared.saturating_sub(o.shared);
        self.comp_samples = self.comp_samples.saturating_sub(o.comp_samples);
        self.uncompressed.subtract(&o.uncompressed);
    }
}

#[derive(Debug)]
pub struct Node {
    pub name: String,
    pub parent: Option<NodeId>,
    /// The nodes listed below this one, in the order of their names.
    pub children: Vec<NodeId>,
    pub subvol: bool,
    pub removed: bool,
    pub c: Counters,
    /// Other owner paths recently seen sharing an extent with this node.
    pub sharers: Vec<String>,
}

impl View for Node {
    type V = NodeView;

    open spec fn view(&self) -> NodeView {
        NodeView {
            name: self.name@,
            parent: match self.parent {
                Some(p) => Some(p as int),
                None => None,
            },
            subvol: self.subvol,
            removed: self.removed,
            c: self.c@,
            sharers: texts(self.sharers@),
        }
    }
}

impl Node {
    fn new(name: &str, parent: Option<NodeId>) -> (r: Self)
        ensures
            r@ == fresh(
                name@,
                match parent {
                    Some(p) => Some(p as int),
                    None => None,
                },
            ),
            r.children@.len() == 0,
    {
        let r: Node = Node {
            name: owned(name),
            parent,
            children: Vec::new(),
            subvol: false,
            removed: false,
            c: Counters::default(),
            sharers: Vec::new(),
        };
        proof {
            assert(r@.sharers =~= Seq::<Seq<char>>::empty());
        }
        r
    }
}

/// Whether `kids` lists the children of `p` in the order of their names.
pub open spec fn lists(a: Seq<NodeView>, p: int, kids: Seq<NodeId>) -> bool {
    &&& forall|k: int| 0 <= k < kids.len() ==> child_of(a, p, #[trigger] kids[k] as int)
    &&& forall|c: NodeId| #[trigger] child_of(a, p, c as int) ==> kids.contains(c)
    &&& forall|j: int, k: int|
        0 <= j < k < kids.len() ==> name_less(
            a[#[trigger] kids[j] as int].name,
            a[#[trigger] kids[k] as int].name,
        )
}

/// What each node is.
pub open spec fn views(nodes: Seq<Node>) -> Seq<NodeView> {
    nodes.map_values(|n: Node| n@)
}

/// The largest number of nodes that ids can tell apart.
pub open spec fn max_nodes() -> nat {
    0x1_0000_0000
}

pub struct Tree {
    /// Every node that was ever made, each at the place of its id.
    pub nodes: Vec<Node>,
    pub total_samples: u64,
    /// Scratch for counting owners per node; all zero between samples.
    pub hits: Vec<u32>,
}

impl View for Tree {
    type V = TreeView;

    closed spec fn view(&self) -> TreeView {
        TreeView { nodes: views(self.nodes@), total_samples: self.total_samples as nat }
    }
}

impl Default for Tree {
    fn default() -> (r: Self)
        ensures
            r.wf(),
            r@ == empty_tree(),
    {
        Self::new()
    }
}

impl Tree {
    /// The nodes make a tree and every node lists its children.
    pub closed spec fn wf(&self) -> bool {
        &&& is_tree(views(self.nodes@))
        &&& self.nodes@.len() <= max_nodes()
        &&& forall|p: int|
            0 <= p < self.nodes@.len() ==> lists(
                views(self.nodes@),
                p,
                (#[trigger] self.nodes@[p]).children@,
            )
        &&& self.hits@.len() == self.nodes@.len()
        &&& forall|i: int| 0 <= i < self.hits@.len() ==> #[trigger] self.hits@[i] == 0
    }

    /// The public count of samples is that of the view, and the nodes are its nodes.
    pub proof fn lemma_view(&self)
        ensures
            self.total_samples == self@.total_samples,
            views(self.nodes@) == self@.nodes,
    {
    }

    pub proof fn lemma_wf(&self)
        requires
            self.wf(),
        ensures
            is_tree(self@.nodes),
            self@.nodes.len() <= max_nodes(),
    {
    }

    pub fn new() -> (r: Self)
        ensures
            r.wf(),
            r@ == empty_tree(),
    {
        let mut nodes: Vec<Node> = Vec::new();
        nodes.push(Node::new("", None));
        let mut hits: Vec<u32> = Vec::new();
        hits.push(0);
        let r: Tree = Tree { nodes, total_samples: 0, hits };
        proof {
            reveal_strlit("");
            assert(r@.nodes[0].name =~= Seq::<char>::empty());
            assert(r@.nodes =~= empty_tree().nodes);
        }
        r
    }

    /// How many samples were added.
    pub fn samples(&self) -> (r: u64)
        ensures
            r == self@.total_samples,
            r == self.total_samples,
    {
        self.total_samples
    }

    /// Sets how many samples count as added.
    pub fn set_samples(&mut self, n: u64)
        requires
            old(self).wf(),
        ensures
            final(self).wf(),
            final(self)@ == (TreeView { total_samples: n as nat, ..old(self)@ }),
    {
        self.total_samples = n;
    }

    /// How many nodes were ever made.
    pub(crate) fn node_count(&self) -> (r: usize)
        requires
            self.wf(),
        ensures
            r == self@.nodes.len(),
    {
        self.nodes.len()
    }

    pub fn node(&self, id: NodeId) -> (r: &Node)
        requires
            self.wf(),
            id < self@.nodes.len(),
        ensures
            r@ == self@.nodes[id as int],
            lists(self@.nodes, id as int, r.children@),
    {
        &self.nodes[id as usize]
    }

    /// Where `name` stands, or would stand, among the children of `parent`.
    fn position(&self, parent: NodeId, name: &str) -> (r: (bool, usize))
        requires
            self.wf(),
            parent < self@.nodes.len(),
        ensures
            ({
                let kids = self.nodes@[parent as int].children@;
                &&& r.1 <= kids.len()
                &&& r.0 ==> r.1 < kids.len() && self@.nodes[kids[r.1 as int] as int].name == name@
                &&& !r.0 ==> (forall|k: int|
                    0 <= k < r.1 ==> name_less(
                        self@.nodes[#[trigger] kids[k] as int].name,
                        name@,
                    )) && (forall|k: int|
                    r.1 <= k < kids.len() ==> name_less(
                        name@,
                        self@.nodes[#[trigger] kids[k] as int].name,
                    ))
            }),
    {
        let kids: &Vec<NodeId> = &self.nodes[parent as usize].children;
        let mut lo: usize = 0;
        let mut hi: usize = kids.len();
        let ghost a = self@.nodes;
        while lo < hi
            invariant
                self.wf(),
                a == self@.nodes,
                parent < a.len(),
                kids@ == self.nodes@[parent as int].children@,
                lists(a, parent as int, kids@),
                lo <= hi <= kids@.len(),
                forall|k: int| 0 <= k < lo ==> name_less(a[#[trigger] kids@[k] as int].name, name@),
                forall|k: int|
                    hi <= k < kids@.len() ==> name_less(
                        name@,
                        a[#[trigger] kids@[k] as int].name,
                    ),
            decreases hi - lo,
        {
            let mid: usize = lo + (hi - lo) / 2;
            proof {
                assert(child_of(a, parent as int, kids@[mid as int] as int));
            }
            let kid: usize = kids[mid] as usize;
            match name_order(self.nodes[kid].name.as_str(), name) {
                Order::Same => {
                    return (true, mid);
                },
                Order::Before => {
                    proof {
                        assert forall|k: int| 0 <= k <= mid implies name_less(
                            a[#[trigger] kids@[k] as int].name,
                            name@,
                        ) by {
                            if k < mid {
                                lemma_name_order(
                                    a[kids@[k] as int].name,
                                    a[kids@[mid as int] as int].name,
                                    name@,
                                );
                            }
                        }
                    }
                    lo = mid + 1;
                },
                Order::After => {
                    proof {
                        assert forall|k: int| mid <= k < kids@.len() implies name_less(
                            name@,
                            a[#[trigger] kids@[k] as int].name,
                        ) by {
                            if k > mid {
                                lemma_name_order(
                                    name@,
                                    a[kids@[mid as int] as int].name,
                                    a[kids@[k] as int].name,
                                );
                            }
                        }
                    }
                    hi = mid;
                },
            }
        }
        (false, lo)
    }

    /// The node listed below `parent` under `name`.
    pub fn child_named(&self, parent: NodeId, name: &str) -> (r: Option<NodeId>)
        requires
            self.wf(),
            parent < self@.nodes.len(),
        ensures
            match r {
                Some(c) => child(self@.nodes, parent as int, name@) == Some(c as int),
                None => child(self@.nodes, parent as int, name@) is None,
            },
    {
        let (found, at) = self.position(parent, name);
        let ghost a = self@.nodes;
        let ghost kids = self.nodes@[parent as int].children@;
        proof {
            lemma_child_is(a, parent as int, name@);
        }
        if found {
            proof {
                assert(child_of(a, parent as int, kids[at as int] as int));
                assert(named_child(a, parent as int, name@, kids[at as int] as int));
                lemma_child_unique(a, parent as int, name@, kids[at as int] as int);
            }
            Some(self.nodes[parent as usize].children[at])
        } else {
            proof {
                if child(a, parent as int, name@) is Some {
                    let c = child(a, parent as int, name@)->0;
                    assert(named_child(a, parent as int, name@, c));
                    assert(child_of(a, parent as int, (c as NodeId) as int));
                    assert(kids.contains(c as NodeId));
                    let k = choose|k: int| 0 <= k < kids.len() && kids[k] == c as NodeId;
                    lemma_name_order(name@, name@, name@);
                }
            }
            None
        }
    }

    pub fn find(&self, path: &str) -> (r: Option<NodeId>)
        requires
            self.wf(),
        ensures
            match r {
                Some(id) => resolve(self@.nodes, components(path@)) == Some(id as int) && id
                    < self@.nodes.len(),
                None => resolve(self@.nodes, components(path@)) is None,
            },
    {
        let names: Vec<String> = components_of(path);
        let ghost all = texts(names@);
        let mut cur: NodeId = ROOT;
        let mut i: usize = 0;
        while i < names.len()
            invariant
                self.wf(),
                i <= names@.len(),
                all == texts(names@),
                all == components(path@),
                cur < self@.nodes.len(),
                resolve(self@.nodes, all.take(i as int)) == Some(cur as int),
            decreases names@.len() - i,
        {
            proof {
                assert(all.take(i + 1).drop_last() =~= all.take(i as int));
                assert(all.take(i + 1).last() == names@[i as int]@);
                lemma_child_is(self@.nodes, cur as int, names@[i as int]@);
            }
            match self.child_named(cur, names[i].as_str()) {
                Some(id) => {
                    cur = id;
                },
                None => {
                    proof {
                        lemma_resolve_none(self@.nodes, all, i + 1);
                    }
                    return None;
                },
            }
            i += 1;
        }
        proof {
            assert(all.take(all.len() as int) =~= all);
        }
        Some(cur)
    }

    pub fn add_child(&mut self, parent: NodeId, name: &str) -> (id: NodeId)
        requires
            old(self).wf(),
            parent < old(self)@.nodes.len(),
            child(old(self)@.nodes, parent as int, name@) is None ==> old(self)@.nodes.len()
                < max_nodes(),
        ensures
            final(self).wf(),
            final(self)@.total_samples == old(self)@.total_samples,
            (final(self)@.nodes, id as int) == with_child(
                old(self)@.nodes,
                parent as int,
                name@,
            ),
    {
        let ghost a = self@.nodes;
        let ghost kids = self.nodes@[parent as int].children@;
        if let Some(id) = self.child_named(parent, name) {
            return id;
        }
        let (_, at) = self.position(parent, name);
        proof {
            lemma_child_is(a, parent as int, name@);
            if exists|k: int| 0 <= k < kids.len() && a[kids[k] as int].name == name@ {
                let k = choose|k: int| 0 <= k < kids.len() && a[kids[k] as int].name == name@;
                assert(child_of(a, parent as int, kids[k] as int));
                assert(named_child(a, parent as int, name@, kids[k] as int));
            }
        }
        let id: NodeId = self.nodes.len() as NodeId;
        self.nodes.push(Node::new(name, Some(parent)));
        self.hits.push(0);
        self.nodes[parent as usize].children.insert(at, id);
        proof {
            let b = a.push(fresh(name@, Some(parent as int)));
            assert(views(self.nodes@) =~= b);
            lemma_push_child(a, parent as int, name@);
            assert forall|p: int| 0 <= p < self.nodes@.len() implies lists(
                b,
                p,
                (#[trigger] self.nodes@[p]).children@,
            ) by {
                let now = self.nodes@[p].children@;
                if p == parent {
                    lemma_insert_kid(a, b, p, kids, at as int, id, name@);
                } else if p < a.len() {
                    let was = old(self).nodes@[p].children@;
                    assert(now == was);
                    assert(lists(a, p, was));
                    assert forall|k: int| 0 <= k < now.len() implies child_of(
                        b,
                        p,
                        #[trigger] now[k] as int,
                    ) by {
                        assert(child_of(a, p, was[k] as int));
                    }
                    assert forall|c: NodeId| #[trigger] child_of(b, p, c as int) implies now.contains(
                        c,
                    ) by {
                        assert(child_of(a, p, c as int));
                    }
                    assert forall|j: int, k: int| 0 <= j < k < now.len() implies name_less(
                        b[#[trigger] now[j] as int].name,
                        b[#[trigger] now[k] as int].name,
                    ) by {
                        assert(child_of(a, p, was[j] as int) && child_of(a, p, was[k] as int));
                    }
                }
            }
        }
        id
    }

    pub fn get_or_create(&mut self, path: &str) -> (id: NodeId)
        requires
            old(self).wf(),
            placed(old(self)@.nodes, components(path@)).0.len() <= max_nodes(),
        ensures
            final(self).wf(),
            final(self)@.total_samples == old(self)@.total_samples,
            (final(self)@.nodes, id as int) == placed(old(self)@.nodes, components(path@)),
            id < final(self)@.nodes.len(),
    {
        let names: Vec<String> = components_of(path);
        let ghost all = texts(names@);
        let ghost a = self@.nodes;
        let mut cur: NodeId = ROOT;
        let mut i: usize = 0;
        while i < names.len()
            invariant
                self.wf(),
                i <= names@.len(),
                all == texts(names@),
                is_tree(a),
                placed(a, all).0.len() <= max_nodes(),
                self@.total_samples == old(self)@.total_samples,
                (self@.nodes, cur as int) == placed(a, all.take(i as int)),
            decreases names@.len() - i,
        {
            proof {
                assert(all.take(i + 1).drop_last() =~= all.take(i as int));
                assert(all.take(i + 1).last() == names@[i as int]@);
                lemma_placed(a, all.take(i as int));
                lemma_placed_prefix(a, all, i + 1);
            }
            cur = self.add_child(cur, names[i].as_str());
            i += 1;
        }
        proof {
            assert(all.take(all.len() as int) =~= all);
            lemma_placed(a, all);
        }
        cur
    }

    pub fn set_counters(&mut self, id: NodeId, c: Counters, subvol: bool)
        requires
            old(self).wf(),
            id < old(self)@.nodes.len(),
        ensures
            final(self).wf(),
            final(self)@ == (TreeView {
                nodes: old(self)@.nodes.update(
                    id as int,
                    NodeView { c: c@, subvol, ..old(self)@.nodes[id as int] },
                ),
                ..old(self)@
            }),
    {
        let ghost a = self@.nodes;
        self.nodes[id as usize].c = c;
        self.nodes[id as usize].subvol = subvol;
        proof {
            let b = a.update(id as int, NodeView { c: c@, subvol, ..a[id as int] });
            assert(views(self.nodes@) =~= b);
            self.lemma_same_lists(old(self));
        }
    }

    /// Nodes of the same names, places and child lists stay well-formed.
    proof fn lemma_same_lists(&self, was: &Tree)
        requires
            was.wf(),
            self.nodes@.len() == was.nodes@.len(),
            grown(views(was.nodes@), views(self.nodes@)),
            forall|i: int|
                0 <= i < self.nodes@.len() ==> (#[trigger] self.nodes@[i]).children@
                    == was.nodes@[i].children@,
            self.hits@ == was.hits@,
        ensures
            self.wf(),
    {
        let a = views(was.nodes@);
        let b = views(self.nodes@);
        lemma_same_shape(a, b);
        assert forall|p: int| 0 <= p < self.nodes@.len() implies lists(
            b,
            p,
            (#[trigger] self.nodes@[p]).children@,
        ) by {
            let kids = was.nodes@[p].children@;
            assert(lists(a, p, kids));
            assert forall|k: int| 0 <= k < kids.len() implies child_of(
                b,
                p,
                #[trigger] kids[k] as int,
            ) by {
                assert(child_of(a, p, kids[k] as int));
            }
            assert forall|c: NodeId| #[trigger] child_of(b, p, c as int) implies kids.contains(c) by {
                assert(child_of(a, p, c as int));
            }
            assert forall|j: int, k: int| 0 <= j < k < kids.len() implies name_less(
                b[#[trigger] kids[j] as int].name,
                b[#[trigger] kids[k] as int].name,
            ) by {
                assert(child_of(a, p, kids[j] as int) && child_of(a, p, kids[k] as int));
            }
        }
    }

    /// Places every path and flags it as a subvolume.
    fn flag_subvols(&mut self, subvols: &Vec<String>)
        requires
            old(self).wf(),
            flagged(old(self)@.nodes, texts(subvols@)).len() <= max_nodes(),
        ensures
            final(self).wf(),
            final(self)@.total_samples == old(self)@.total_samples,
            final(self)@.nodes == flagged(old(self)@.nodes, texts(subvols@)),
    {
        let ghost a = self@.nodes;
        let ghost all = texts(subvols@);
        let mut i: usize = 0;
        while i < subvols.len()
            invariant
                self.wf(),
                is_tree(a),
                i <= subvols@.len(),
                all == texts(subvols@),
                flagged(a, all).len() <= max_nodes(),
                self@.total_samples == old(self)@.total_samples,
                self@.nodes == flagged(a, all.take(i as int)),
            decreases subvols@.len() - i,
        {
            proof {
                assert(all.take(i + 1).drop_last() =~= all.take(i as int));
                assert(all.take(i + 1).last() == subvols@[i as int]@);
                lemma_flagged(a, all.take(i as int));
                lemma_flagged_prefix(a, all, i + 1);
            }
            let id: NodeId = self.get_or_create(subvols[i].as_str());
            let ghost mid = *self;
            self.nodes[id as usize].subvol = true;
            proof {
                let b = mid@.nodes;
                assert(views(self.nodes@) =~= b.update(
                    id as int,
                    NodeView { subvol: true, ..b[id as int] },
                ));
                self.lemma_same_lists(&mid);
            }
            i += 1;
        }
        proof {
            assert(all.take(all.len() as int) =~= all);
        }
    }

    /// Places every path.
    fn place_all(&mut self, paths: &Vec<String>) -> (leaves: Vec<NodeId>)
        requires
            old(self).wf(),
            placed_all(old(self)@.nodes, texts(paths@)).0.len() <= max_nodes(),
        ensures
            final(self).wf(),
            final(self)@.total_samples == old(self)@.total_samples,
            (final(self)@.nodes, ids(leaves@)) == placed_all(old(self)@.nodes, texts(paths@)),
    {
        let ghost a = self@.nodes;
        let ghost all = texts(paths@);
        let mut leaves: Vec<NodeId> = Vec::new();
        let mut i: usize = 0;
        proof {
            assert(ids(leaves@) =~= Seq::<int>::empty());
        }
        while i < paths.len()
            invariant
                self.wf(),
                is_tree(a),
                i <= paths@.len(),
                all == texts(paths@),
                placed_all(a, all).0.len() <= max_nodes(),
                self@.total_samples == old(self)@.total_samples,
                (self@.nodes, ids(leaves@)) == placed_all(a, all.take(i as int)),
            decreases paths@.len() - i,
        {
            proof {
                assert(all.take(i + 1).drop_last() =~= all.take(i as int));
                assert(all.take(i + 1).last() == paths@[i as int]@);
                lemma_placed_all(a, all.take(i as int));
                lemma_placed_all_prefix(a, all, i + 1);
            }
            let id: NodeId = self.get_or_create(paths[i].as_str());
            proof {
                assert(ids(leaves@.push(id)) =~= ids(leaves@).push(id as int));
            }
            leaves.push(id);
            i += 1;
        }
        proof {
            assert(all.take(all.len() as int) =~= all);
        }
        leaves
    }

    pub fn add_sample(&mut self, s: &Sample)
        requires
            old(self).wf(),
            s.ratio matches Some(r) ==> r.disk > 0,
            s.owners@.len() > 0 ==> {
                &&& old(self)@.total_samples < u64::MAX
                &&& s.owners@.len() <= u32::MAX
                &&& placed_all(
                    flagged(old(self)@.nodes, texts(s.subvols@)),
                    texts(s.owners@),
                ).0.len() <= max_nodes()
                &&& forall|i: int|
                    0 <= i < old(self)@.nodes.len() ==> counts_below(
                        (#[trigger] old(self)@.nodes[i]).c,
                        u64::MAX as nat,
                    )
            },
        ensures
            final(self).wf(),
            final(self)@.nodes.len() >= old(self)@.nodes.len(),
            final(self)@ == sampled(
                old(self)@,
                texts(s.owners@),
                texts(s.subvols@),
                ratio_view(s.ratio),
            ),
    {
        if s.owners.is_empty() {
            return;
        }
        let ghost a0 = self@.nodes;
        let ghost owners = texts(s.owners@);
        let ghost subvols = texts(s.subvols@);
        proof {
            law_ids_are_stable(self@, owners, subvols, ratio_view(s.ratio), 0, 0);
            lemma_flagged(a0, subvols);
            lemma_placed_all(flagged(a0, subvols), owners);
            lemma_flagged_counts(a0, subvols, u64::MAX as nat);
        }
        self.total_samples = self.total_samples + 1;
        self.flag_subvols(&s.subvols);
        proof {
            lemma_placed_all_counts(flagged(a0, subvols), owners, u64::MAX as nat);
        }
        let leaves: Vec<NodeId> = self.place_all(&s.owners);
        let ghost a = self@.nodes;
        let ghost at = ids(leaves@);
        let ghost mid = *self;
        proof {
            assert forall|i: int| 0 <= i < leaves@.len() implies (#[trigger] leaves@[i])
                < self.nodes@.len() by {
                assert(at[i] == leaves@[i] as int);
            }
        }
        let m: u32 = leaves.len() as u32;
        let touched: Vec<NodeId> = count_hits(&self.nodes, &mut self.hits, &leaves);
        proof {
            assert forall|x: int| 0 <= x < self.hits@.len() implies #[trigger] self.hits@[x]
                <= m by {
                lemma_hits_bound(a, x, at);
            }
            assert forall|x: int| 0 <= x < self.nodes@.len() implies counts_below(
                (#[trigger] self.nodes@[x])@.c,
                u64::MAX as nat,
            ) by {
                assert(a[x] == self.nodes@[x]@);
            }
        }
        let ghost h0 = self.hits@;
        share_out(&mut self.nodes, &mut self.hits, &touched, m);
        let ghost shared_nodes = self.nodes@;
        proof {
            assert(views(shared_nodes).len() == a.len());
            assert forall|i: int| 0 <= i < a.len() implies (#[trigger] views(shared_nodes)[i]).name
                == a[i].name && views(shared_nodes)[i].parent == a[i].parent && views(
                shared_nodes,
            )[i].removed == a[i].removed by {
                assert(shared_nodes[i]@ == (NodeView { c: shared_nodes[i]@.c, ..mid.nodes@[i]@ }));
            }
            lemma_same_shape(a, views(shared_nodes));
            assert forall|x: int| 0 <= x < shared_nodes.len() implies (
            #[trigger] shared_nodes[x])@.c.represented < u64::MAX && shared_nodes[x]@.c.comp_samples
                < u64::MAX by {
                assert(counts_below(mid.nodes@[x]@.c, u64::MAX as nat));
            }
            assert(at[0] == leaves@[0] as int);
        }
        represent(&mut self.nodes, leaves[0], s.ratio);
        proof {
            let b = counted(a, at, ratio_view(s.ratio));
            assert forall|x: int| 0 <= x < a.len() implies (#[trigger] self.nodes@[x])@ == b[x] by {
                lemma_within_shape(a, views(shared_nodes), x, at[0]);
                assert(h0[x] == owned_below(a, x, at));
                assert(self.nodes@[x]@.c == represented(
                    shared_nodes[x]@.c,
                    within(views(shared_nodes), x, at[0]),
                    s.ratio,
                ));
                assert(shared_nodes[x]@.c == credited(
                    mid.nodes@[x]@.c,
                    h0[x] as nat,
                    m as nat,
                    false,
                    None,
                ));
            }
            assert(views(self.nodes@) =~= b);
            assert(self.hits@ =~= mid.hits@);
            self.lemma_same_lists(&mid);
        }
        self.note_sharers(&s.owners, &leaves);
    }

    /// Adds a sample where ids and counters have room for it and its sizes make
    /// a ratio; says whether they do.
    pub fn offer(&mut self, s: &Sample) -> (r: bool)
        requires
            old(self).wf(),
            counted_once(old(self)@),
        ensures
            final(self).wf(),
            counted_once(final(self)@),
            final(self)@.nodes.len() >= old(self)@.nodes.len(),
            r == can_take(
                old(self)@,
                texts(s.owners@),
                texts(s.subvols@),
                ratio_view(s.ratio),
            ),
            r ==> final(self)@ == sampled(
                old(self)@,
                texts(s.owners@),
                texts(s.subvols@),
                ratio_view(s.ratio),
            ),
            !r ==> final(self)@ == old(self)@,
    {
        proof {
            self.lemma_wf();
            law_counts_stay_within_samples(
                self@,
                texts(s.owners@),
                texts(s.subvols@),
                ratio_view(s.ratio),
                0,
            );
        }
        if let Some(x) = s.ratio {
            if x.disk == 0 {
                return false;
            }
        }
        if s.owners.len() > 0 {
            if self.total_samples == u64::MAX || s.owners.len() as u64 > 0xffff_ffff {
                return false;
            }
            if !has_room(self, s) {
                return false;
            }
            proof {
                assert forall|i: int| 0 <= i < self@.nodes.len() implies counts_below(
                    (#[trigger] self@.nodes[i]).c,
                    u64::MAX as nat,
                ) by {
                    assert(counts_below(self@.nodes[i].c, self@.total_samples + 1));
                }
            }
        }
        self.add_sample(s);
        true
    }

    /// The nodes listed below `id`, by name.
    pub fn children(&self, id: NodeId) -> (r: &Vec<NodeId>)
        requires
            self.wf(),
            id < self@.nodes.len(),
        ensures
            lists(self@.nodes, id as int, r@),
    {
        &self.nodes[id as usize].children
    }

    pub fn path_of(&self, id: NodeId) -> (r: String)
        requires
            self.wf(),
            id < self@.nodes.len(),
        ensures
            r@ == joined(path(self@.nodes, id as int), seq!['/']),
    {
        let mut parts: Vec<String> = Vec::new();
        self.collect_names(id, &mut parts);
        proof {
            reveal_strlit("/");
            assert("/"@ =~= seq!['/']);
            assert(texts(Seq::<String>::empty()) =~= Seq::<Seq<char>>::empty());
            assert(texts(parts@) =~= path(self@.nodes, id as int));
        }
        join_text(&parts, "/")
    }

    /// Appends the names from the root down to `id`.
    fn collect_names(&self, id: NodeId, parts: &mut Vec<String>)
        requires
            self.wf(),
            id < self@.nodes.len(),
        ensures
            texts(final(parts)@) == texts(old(parts)@) + path(self@.nodes, id as int),
        decreases id,
    {
        proof {
            assert(self@.nodes[id as int] == self.nodes@[id as int]@);
        }
        if let Some(p) = self.nodes[id as usize].parent {
            self.collect_names(p, parts);
            let name: String = self.nodes[id as usize].name.clone();
            proof {
                lemma_texts_push(parts@, name);
                assert((texts(old(parts)@) + path(self@.nodes, p as int)).push(name@) =~= texts(
                    old(parts)@,
                ) + path(self@.nodes, id as int));
            }
            parts.push(name);
        } else {
            proof {
                assert(texts(parts@) =~= texts(parts@) + path(self@.nodes, id as int));
            }
        }
    }

    /// True for `<BUCKET>` nodes and everything below them.
    pub fn is_special(&self, id: NodeId) -> (r: bool)
        requires
            self.wf(),
            id < self@.nodes.len(),
        ensures
            r == special(self@.nodes, id as int),
    {
        let ghost a = self@.nodes;
        let mut cur: NodeId = id;
        loop
            invariant
                self.wf(),
                a == self@.nodes,
                cur < a.len(),
                special(a, id as int) == special(a, cur as int),
            decreases cur,
        {
            proof {
                assert(a[cur as int] == self.nodes@[cur as int]@);
                lemma_special_step(a, cur as int);
            }
            match self.nodes[cur as usize].parent {
                None => {
                    return false;
                },
                Some(p) => {
                    if p == ROOT {
                        return starts_with_char(self.nodes[cur as usize].name.as_str(), '<');
                    }
                    cur = p;
                },
            }
        }
    }

    /// Strict ancestor test.
    pub fn is_ancestor(&self, anc: NodeId, id: NodeId) -> (r: bool)
        requires
            self.wf(),
            id < self@.nodes.len(),
        ensures
            r == (anc != id && within(self@.nodes, anc as int, id as int)),
    {
        let ghost a = self@.nodes;
        proof {
            assert(a[id as int] == self.nodes@[id as int]@);
        }
        let mut cur: Option<NodeId> = self.nodes[id as usize].parent;
        proof {
            if cur is Some && within(a, id as int, cur->0 as int) {
                lemma_within_bound(a, id as int, cur->0 as int);
            }
        }
        while cur.is_some()
            invariant
                self.wf(),
                a == self@.nodes,
                cur matches Some(p) ==> p < a.len(),
                (anc != id && within(a, anc as int, id as int)) == (cur is Some && within(
                    a,
                    anc as int,
                    cur->0 as int,
                )),
            decreases (if cur is Some { cur->0 + 1 } else { 0int }),
        {
            let p: NodeId = cur.unwrap();
            if p == anc {
                return true;
            }
            proof {
                assert(a[p as int] == self.nodes@[p as int]@);
            }
            cur = self.nodes[p as usize].parent;
        }
        false
    }

    pub fn has_subvol(&self, id: NodeId) -> (r: bool)
        requires
            self.wf(),
            id < self@.nodes.len(),
        ensures
            r == holds_subvol(self@.nodes, id as int),
        decreases self@.nodes.len() - id,
    {
        let ghost a = self@.nodes;
        let n: &Node = &self.nodes[id as usize];
        proof {
            assert(a[id as int] == n@);
            assert(attached(a, id as int, id as int));
        }
        if n.subvol {
            return true;
        }
        let ghost kids = n.children@;
        let mut k: usize = 0;
        while k < n.children.len()
            invariant
                self.wf(),
                a == self@.nodes,
                id < a.len(),
                *n == self.nodes@[id as int],
                kids == n.children@,
                lists(a, id as int, kids),
                k <= kids.len(),
                forall|q: int| 0 <= q < k ==> !holds_subvol(a, #[trigger] kids[q] as int),
            decreases kids.len() - k,
        {
            let c: NodeId = n.children[k];
            proof {
                assert(child_of(a, id as int, c as int));
                assert(a[c as int].parent == Some(id as int));
            }
            if self.has_subvol(c) {
                proof {
                    let d = choose|d: int|
                        0 <= d < a.len() && #[trigger] attached(a, c as int, d) && a[d].subvol;
                    lemma_attached_child(a, id as int, c as int, d);
                }
                return true;
            }
            k += 1;
        }
        proof {
            if holds_subvol(a, id as int) {
                let d = choose|d: int|
                    0 <= d < a.len() && #[trigger] attached(a, id as int, d) && a[d].subvol;
                let c = lemma_attached_step(a, id as int, d);
                assert(child_of(a, id as int, (c as NodeId) as int));
                assert(kids.contains(c as NodeId));
                let q = choose|q: int| 0 <= q < kids.len() && kids[q] == c as NodeId;
                assert(holds_subvol(a, kids[q] as int));
            }
        }
        false
    }

    pub fn is_live(&self, id: NodeId) -> (r: bool)
        requires
            self.wf(),
            id < self@.nodes.len(),
        ensures
            r == live(self@.nodes, id as int),
    {
        let ghost a = self@.nodes;
        let mut cur: Option<NodeId> = Some(id);
        while cur.is_some()
            invariant
                self.wf(),
                a == self@.nodes,
                cur matches Some(p) ==> p < a.len(),
                live(a, id as int) == (cur is Some ==> live(a, cur->0 as int)),
            decreases (if cur is Some { cur->0 + 1 } else { 0int }),
        {
            let c: NodeId = cur.unwrap();
            proof {
                assert(a[c as int] == self.nodes@[c as int]@);
            }
            if self.nodes[c as usize].removed {
                return false;
            }
            cur = self.nodes[c as usize].parent;
        }
        true
    }

    /// Detaches `id` and subtracts its counters from every ancestor.
    pub fn remove(&mut self, id: NodeId)
        requires
            old(self).wf(),
            id < old(self)@.nodes.len(),
        ensures
            final(self).wf(),
            final(self)@ == (TreeView {
                nodes: without(old(self)@.nodes, id as int),
                ..old(self)@
            }),
    {
        if id == ROOT || !self.is_live(id) {
            return;
        }
        let ghost a = self@.nodes;
        proof {
            assert(a[id as int] == self.nodes@[id as int]@);
        }
        let c: Counters = self.nodes[id as usize].c.clone();
        let parent: NodeId = self.nodes[id as usize].parent.unwrap();
        let ghost kids = self.nodes@[parent as int].children@;
        let (found, at) = self.position(parent, self.nodes[id as usize].name.as_str());
        proof {
            assert(child_of(a, parent as int, id as int));
            assert(kids.contains(id));
            let q = choose|q: int| 0 <= q < kids.len() && kids[q] == id;
            lemma_name_order(a[id as int].name, a[id as int].name, a[id as int].name);
            assert(found);
            assert(child_of(a, parent as int, kids[at as int] as int));
            assert(kids[at as int] == id);
        }
        subtract_above(&mut self.nodes, id, &c);
        let ghost mid = self.nodes@;
        self.nodes[parent as usize].children.remove(at);
        self.nodes[id as usize].removed = true;
        proof {
            let b = without(a, id as int);
            assert forall|i: int| 0 <= i < a.len() implies (#[trigger] self.nodes@[i])@ == b[i] by {
                assert(mid[i]@ == (NodeView { c: mid[i]@.c, ..old(self).nodes@[i]@ }));
            }
            assert(views(self.nodes@) =~= b);
            self.lemma_removed_lists(old(self), id, parent, at as int);
        }
    }

    /// Taking a node off its parent's list and marking it removed keeps the tree.
    proof fn lemma_removed_lists(&self, was: &Tree, id: NodeId, parent: NodeId, at: int)
        requires
            was.wf(),
            0 < id < was.nodes@.len(),
            live(was@.nodes, id as int),
            was.nodes@[id as int].parent == Some(parent),
            parent < was.nodes@.len(),
            0 <= at < was.nodes@[parent as int].children@.len(),
            was.nodes@[parent as int].children@[at] == id,
            self.nodes@.len() == was.nodes@.len(),
            views(self.nodes@) == without(was@.nodes, id as int),
            forall|i: int|
                0 <= i < self.nodes@.len() ==> (#[trigger] self.nodes@[i]).children@ == (if i
                    == parent {
                    was.nodes@[i].children@.remove(at)
                } else {
                    was.nodes@[i].children@
                }),
            self.hits@ == was.hits@,
        ensures
            self.wf(),
    {
        let a = was@.nodes;
        let b = views(self.nodes@);
        assert forall|i: int| 0 <= i < b.len() implies (#[trigger] b[i]).name == a[i].name
            && b[i].parent == a[i].parent && b[i].removed == (a[i].removed || i == id) by {}
        assert forall|x: int, y: int|
            0 < x < b.len() && 0 < y < b.len() && !b[x].removed && !b[y].removed && (
            #[trigger] b[x]).parent == (#[trigger] b[y]).parent && b[x].name == b[y].name implies x
            == y by {
            assert(a[x].parent == a[y].parent);
        }
        assert(b[0].parent is None && !b[0].removed);
        assert(is_tree(b));
        assert forall|p: int| 0 <= p < self.nodes@.len() implies lists(
            b,
            p,
            (#[trigger] self.nodes@[p]).children@,
        ) by {
            let kids = was.nodes@[p].children@;
            let now = self.nodes@[p].children@;
            assert(lists(a, p, kids));
            let shift = |k: int|
                if p == parent && k >= at {
                    k + 1
                } else {
                    k
                };
            assert forall|k: int| 0 <= k < now.len() implies child_of(
                b,
                p,
                #[trigger] now[k] as int,
            ) by {
                assert(now[k] == kids[shift(k)]);
                assert(child_of(a, p, kids[shift(k)] as int));
                if now[k] == id {
                    if shift(k) < at {
                        lemma_name_order(a[id as int].name, a[id as int].name, a[id as int].name);
                        assert(name_less(a[kids[shift(k)] as int].name, a[kids[at] as int].name));
                    } else if p == parent {
                        lemma_name_order(a[id as int].name, a[id as int].name, a[id as int].name);
                        assert(name_less(a[kids[at] as int].name, a[kids[shift(k)] as int].name));
                    }
                }
            }
            assert forall|c: NodeId| #[trigger] child_of(b, p, c as int) implies now.contains(c) by {
                assert(child_of(a, p, c as int));
                assert(kids.contains(c));
                let k = choose|k: int| 0 <= k < kids.len() && kids[k] == c;
                if p == parent {
                    assert(k != at);
                    if k < at {
                        assert(now[k] == c);
                    } else {
                        assert(now[k - 1] == c);
                    }
                }
            }
            assert forall|j: int, k: int| 0 <= j < k < now.len() implies name_less(
                b[#[trigger] now[j] as int].name,
                b[#[trigger] now[k] as int].name,
            ) by {
                assert(now[j] == kids[shift(j)] && now[k] == kids[shift(k)]);
                assert(child_of(a, p, kids[shift(j)] as int));
                assert(child_of(a, p, kids[shift(k)] as int));
            }
        }
    }

    /// Has every owner note the others.
    fn note_sharers(&mut self, owners: &Vec<String>, leaves: &Vec<NodeId>)
        requires
            old(self).wf(),
            owners@.len() == leaves@.len(),
            forall|i: int| 0 <= i < leaves@.len() ==> (#[trigger] leaves@[i])
                < old(self)@.nodes.len(),
        ensures
            final(self).wf(),
            final(self)@.total_samples == old(self)@.total_samples,
            final(self)@.nodes == shared_among(
                old(self)@.nodes,
                ids(leaves@),
                texts(owners@),
                owners@.len(),
            ),
    {
        let ghost a = self@.nodes;
        let ghost all = texts(owners@);
        let mut i: usize = 0;
        while i < leaves.len()
            invariant
                self.wf(),
                owners@.len() == leaves@.len(),
                i <= leaves@.len(),
                all == texts(owners@),
                self@.nodes.len() == a.len(),
                forall|k: int| 0 <= k < leaves@.len() ==> (#[trigger] leaves@[k]) < a.len(),
                self@.total_samples == old(self)@.total_samples,
                self@.nodes == shared_among(a, ids(leaves@), all, i as nat),
            decreases leaves@.len() - i,
        {
            let id: usize = leaves[i] as usize;
            let ghost mid = *self;
            let mut sharers: Vec<String> = Vec::new();
            std::mem::swap(&mut sharers, &mut self.nodes[id].sharers);
            note_others(&mut sharers, owners, i);
            self.nodes[id].sharers = sharers;
            proof {
                let b = mid@.nodes;
                assert(ids(leaves@)[i as int] == id as int);
                assert(views(self.nodes@) =~= b.update(
                    id as int,
                    NodeView {
                        sharers: noted(b[id as int].sharers, co_owners(all, i as int)),
                        ..b[id as int]
                    },
                ));
                self.lemma_same_lists(&mid);
            }
            i += 1;
        }
    }
}

/// Adds the first few owners but number `i` to the sharers.
fn note_others(sharers: &mut Vec<String>, owners: &Vec<String>, i: usize)
    requires
        i < owners@.len(),
    ensures
        texts(final(sharers)@) == noted(texts(old(sharers)@), co_owners(texts(owners@), i as int)),
{
    let ghost all = texts(owners@);
    let ghost others = co_owners(all, i as int);
    let ghost first = texts(sharers@);
    let mut j: usize = 0;
    let mut n: usize = 0;
    proof {
        assert(others.take(0) =~= Seq::<Seq<char>>::empty());
    }
    while j < owners.len() && n < MAX_SHARERS
        invariant
            i < owners@.len(),
            j <= owners@.len(),
            n <= 5,
            n == (if j <= i {
                j as int
            } else {
                j - 1
            }),
            all == texts(owners@),
            others == co_owners(all, i as int),
            n <= others.len(),
            texts(sharers@) == noted(first, others.take(n as int)),
        decreases owners@.len() - j,
    {
        if j != i {
            proof {
                assert(all.remove(i as int)[n as int] == all[j as int]);
                assert(others[n as int] == owners@[j as int]@);
                assert(others.take(n + 1).drop_last() =~= others.take(n as int));
            }
            note(sharers, owners[j].as_str());
            n += 1;
        }
        j += 1;
    }
    proof {
        assert(others.take(others.len() as int) =~= others);
    }
}

/// Adds one path to the sharers unless it is among them.
fn note(sharers: &mut Vec<String>, p: &str)
    ensures
        texts(final(sharers)@) == (if texts(old(sharers)@).contains(p@) {
            texts(old(sharers)@)
        } else if old(sharers)@.len() == 5 {
            texts(old(sharers)@).drop_first().push(p@)
        } else {
            texts(old(sharers)@).push(p@)
        }),
{
    let ghost was = texts(sharers@);
    let mut k: usize = 0;
    while k < sharers.len()
        invariant
            k <= sharers@.len(),
            sharers@ == old(sharers)@,
            was == texts(sharers@),
            forall|q: int| 0 <= q < k ==> #[trigger] was[q] != p@,
        decreases sharers@.len() - k,
    {
        if same_text(sharers[k].as_str(), p) {
            proof {
                assert(was[k as int] == p@);
            }
            return;
        }
        k += 1;
    }
    if sharers.len() == MAX_SHARERS {
        sharers.remove(0);
        proof {
            assert(texts(sharers@) =~= was.drop_first());
        }
    }
    let s: String = owned(p);
    proof {
        lemma_texts_push(sharers@, s);
    }
    sharers.push(s);
}

/// Making nodes leaves every counter below its limit.
proof fn lemma_placed_counts(a: Seq<NodeView>, names: Seq<Seq<char>>, limit: nat)
    requires
        limit > 0,
        forall|i: int| 0 <= i < a.len() ==> counts_below((#[trigger] a[i]).c, limit),
    ensures
        forall|i: int|
            0 <= i < placed(a, names).0.len() ==> counts_below(
                (#[trigger] placed(a, names).0[i]).c,
                limit,
            ),
    decreases names.len(),
{
    if names.len() > 0 {
        lemma_placed_counts(a, names.drop_last(), limit);
    }
}

proof fn lemma_flagged_counts(a: Seq<NodeView>, subvols: Seq<Seq<char>>, limit: nat)
    requires
        is_tree(a),
        limit > 0,
        forall|i: int| 0 <= i < a.len() ==> counts_below((#[trigger] a[i]).c, limit),
    ensures
        forall|i: int|
            0 <= i < flagged(a, subvols).len() ==> counts_below(
                (#[trigger] flagged(a, subvols)[i]).c,
                limit,
            ),
    decreases subvols.len(),
{
    if subvols.len() > 0 {
        lemma_flagged_counts(a, subvols.drop_last(), limit);
        lemma_flagged(a, subvols.drop_last());
        let b = flagged(a, subvols.drop_last());
        lemma_placed_counts(b, components(subvols.last()), limit);
        lemma_placed(b, components(subvols.last()));
        let (c, id) = placed(b, components(subvols.last()));
        assert forall|i: int| 0 <= i < flagged(a, subvols).len() implies counts_below(
            (#[trigger] flagged(a, subvols)[i]).c,
            limit,
        ) by {
            assert(counts_below(c[i].c, limit));
        }
    }
}

proof fn lemma_placed_all_counts(a: Seq<NodeView>, paths: Seq<Seq<char>>, limit: nat)
    requires
        limit > 0,
        forall|i: int| 0 <= i < a.len() ==> counts_below((#[trigger] a[i]).c, limit),
    ensures
        forall|i: int|
            0 <= i < placed_all(a, paths).0.len() ==> counts_below(
                (#[trigger] placed_all(a, paths).0[i]).c,
                limit,
            ),
    decreases paths.len(),
{
    if paths.len() > 0 {
        lemma_placed_all_counts(a, paths.drop_last(), limit);
        lemma_placed_counts(placed_all(a, paths.drop_last()).0, components(paths.last()), limit);
    }
}

/// Subtracts `c` from the counters of everything strictly above `id`.
fn subtract_above(nodes: &mut Vec<Node>, id: NodeId, c: &Counters)
    requires
        is_tree(views(old(nodes)@)),
        id < old(nodes)@.len(),
        old(nodes)@.len() <= max_nodes(),
    ensures
        same_but_counters(old(nodes)@, final(nodes)@),
        forall|x: int|
            0 <= x < final(nodes)@.len() ==> (#[trigger] final(nodes)@[x])@.c == (if x != id
                && within(views(old(nodes)@), x, id as int) {
                reduced(old(nodes)@[x]@.c, c@)
            } else {
                old(nodes)@[x]@.c
            }),
{
    let ghost was = nodes@;
    let ghost a = views(nodes@);
    proof {
        assert(a[id as int] == nodes@[id as int]@);
        assert(within(a, id as int, id as int));
    }
    let mut cur: Option<NodeId> = nodes[id as usize].parent;
    proof {
        if cur is Some {
            assert(within(a, cur->0 as int, cur->0 as int));
            if within(a, id as int, cur->0 as int) {
                lemma_within_bound(a, id as int, cur->0 as int);
            }
        }
    }
    while cur.is_some()
        invariant
            a == views(was),
            is_tree(a),
            was.len() <= max_nodes(),
            id < was.len(),
            same_but_counters(was, nodes@),
            cur matches Some(p) ==> p < id && within(a, p as int, id as int),
            forall|x: int|
                0 <= x < was.len() ==> (#[trigger] nodes@[x])@.c == (if x != id && within(
                    a,
                    x,
                    id as int,
                ) && !(cur is Some && within(a, x, cur->0 as int)) {
                    reduced(was[x]@.c, c@)
                } else {
                    was[x]@.c
                }),
        decreases (if cur is Some { cur->0 + 1 } else { 0int }),
    {
        let p: NodeId = cur.unwrap();
        let ghost before = nodes@;
        proof {
            assert(a[p as int] == was[p as int]@);
            assert(within(a, p as int, p as int));
            assert(nodes@[p as int]@.c == was[p as int]@.c);
        }
        nodes[p as usize].c.subtract(c);
        let parent: Option<NodeId> = nodes[p as usize].parent;
        proof {
            assert(a[p as int].parent == nodes@[p as int]@.parent);
            assert forall|x: int| 0 <= x < was.len() implies (#[trigger] nodes@[x])@.c == (if x
                != id && within(a, x, id as int) && !(parent is Some && within(
                a,
                x,
                parent->0 as int,
            )) {
                reduced(was[x]@.c, c@)
            } else {
                was[x]@.c
            }) by {
                if x == p {
                    if parent is Some && within(a, x, parent->0 as int) {
                        lemma_within_bound(a, x, parent->0 as int);
                    }
                } else {
                    assert(nodes@[x] == before[x]);
                }
            }
            if parent is Some {
                assert(within(a, parent->0 as int, parent->0 as int));
                assert(within(a, parent->0 as int, p as int));
                lemma_within_transitive(a, parent->0 as int, p as int, id as int);
            }
        }
        cur = parent;
    }
}

/// A node is special as its parent is, and right below the root by its name.
proof fn lemma_special_step(a: Seq<NodeView>, id: int)
    requires
        is_tree(a),
        0 <= id < a.len(),
    ensures
        id == 0 ==> !special(a, id),
        id > 0 && a[id].parent == Some(0int) ==> special(a, id) == (a[id].name.len() > 0
            && a[id].name[0] == '<'),
        id > 0 && a[id].parent != Some(0int) ==> special(a, id) == special(a, a[id].parent->0),
{
    assert(within(a, id, id));
    if id > 0 {
        let p = a[id].parent->0;
        if special(a, id) {
            let top = choose|top: int|
                #[trigger] within(a, top, id) && 0 <= top < a.len() && a[top].parent == Some(0int)
                    && a[top].name.len() > 0 && a[top].name[0] == '<';
            if top != id {
                assert(within(a, top, p));
                if p == 0 {
                    lemma_within_bound(a, top, p);
                }
            }
        }
        if special(a, p) {
            let top = choose|top: int|
                #[trigger] within(a, top, p) && 0 <= top < a.len() && a[top].parent == Some(0int)
                    && a[top].name.len() > 0 && a[top].name[0] == '<';
            assert(within(a, top, id));
        }
    } else if special(a, id) {
        let top = choose|top: int|
            #[trigger] within(a, top, id) && 0 <= top < a.len() && a[top].parent == Some(0int)
                && a[top].name.len() > 0 && a[top].name[0] == '<';
        lemma_within_bound(a, top, id);
    }
}

/// Putting a new child where its name belongs keeps the list complete and sorted.
proof fn lemma_insert_kid(
    a: Seq<NodeView>,
    b: Seq<NodeView>,
    p: int,
    kids: Seq<NodeId>,
    at: int,
    id: NodeId,
    name: Seq<char>,
)
    requires
        is_tree(a),
        0 <= p < a.len(),
        id == a.len(),
        b == a.push(fresh(name, Some(p))),
        lists(a, p, kids),
        0 <= at <= kids.len(),
        forall|k: int| 0 <= k < at ==> name_less(a[#[trigger] kids[k] as int].name, name),
        forall|k: int| at <= k < kids.len() ==> name_less(name, a[#[trigger] kids[k] as int].name),
    ensures
        lists(b, p, kids.insert(at, id)),
{
    let now = kids.insert(at, id);
    assert forall|k: int| 0 <= k < now.len() implies child_of(b, p, #[trigger] now[k] as int) by {
        if k < at {
            assert(child_of(a, p, kids[k] as int));
        } else if k > at {
            assert(child_of(a, p, kids[k - 1] as int));
        }
    }
    assert forall|c: NodeId| #[trigger] child_of(b, p, c as int) implies now.contains(c) by {
        if c == id {
            assert(now[at] == id);
        } else {
            assert(child_of(a, p, c as int));
            assert(kids.contains(c));
            let k = choose|k: int| 0 <= k < kids.len() && kids[k] == c;
            if k < at {
                assert(now[k] == c);
            } else {
                assert(now[k + 1] == c);
            }
        }
    }
    assert forall|j: int, k: int| 0 <= j < k < now.len() implies name_less(
        b[#[trigger] now[j] as int].name,
        b[#[trigger] now[k] as int].name,
    ) by {
        let jj = if j > at {
            j - 1
        } else {
            j
        };
        let kk = if k > at {
            k - 1
        } else {
            k
        };
        if j != at {
            assert(child_of(a, p, kids[jj] as int));
        }
        if k != at {
            assert(child_of(a, p, kids[kk] as int));
        }
    }
}

/// Node ids as numbers.
pub open spec fn ids(v: Seq<NodeId>) -> Seq<int> {
    v.map_values(|x: NodeId| x as int)
}

/// Whether only counters may differ between the two.
spec fn same_but_counters(was: Seq<Node>, now: Seq<Node>) -> bool {
    &&& now.len() == was.len()
    &&& forall|i: int|
        0 <= i < now.len() ==> (#[trigger] now[i]).children@ == was[i].children@ && now[i]@ == (
        NodeView { c: now[i]@.c, ..was[i]@ })
}

/// Counts, for every node, the leaves in its subtree. Returns the nodes that
/// have any.
fn count_hits(nodes: &Vec<Node>, hits: &mut Vec<u32>, leaves: &Vec<NodeId>) -> (touched: Vec<
    NodeId,
>)
    requires
        is_tree(views(nodes@)),
        nodes@.len() <= max_nodes(),
        old(hits)@.len() == nodes@.len(),
        forall|i: int| 0 <= i < old(hits)@.len() ==> #[trigger] old(hits)@[i] == 0,
        leaves@.len() <= u32::MAX,
        forall|i: int| 0 <= i < leaves@.len() ==> (#[trigger] leaves@[i]) < nodes@.len(),
    ensures
        final(hits)@.len() == nodes@.len(),
        forall|x: int|
            0 <= x < nodes@.len() ==> #[trigger] final(hits)@[x] == owned_below(
                views(nodes@),
                x,
                ids(leaves@),
            ),
        touched@.no_duplicates(),
        forall|x: NodeId|
            #[trigger] touched@.contains(x) <==> x < nodes@.len() && owned_below(
                views(nodes@),
                x as int,
                ids(leaves@),
            ) > 0,
{
    let ghost a = views(nodes@);
    let mut touched: Vec<NodeId> = Vec::new();
    let mut i: usize = 0;
    while i < leaves.len()
        invariant
            a == views(nodes@),
            is_tree(a),
            nodes@.len() <= max_nodes(),
            i <= leaves@.len() <= u32::MAX,
            forall|k: int| 0 <= k < leaves@.len() ==> (#[trigger] leaves@[k]) < nodes@.len(),
            hits@.len() == nodes@.len(),
            forall|x: int|
                0 <= x < nodes@.len() ==> #[trigger] hits@[x] == owned_below(
                    a,
                    x,
                    ids(leaves@.take(i as int)),
                ),
            touched@.no_duplicates(),
            forall|x: NodeId| #[trigger]
                touched@.contains(x) <==> x < nodes@.len() && hits@[x as int] > 0,
        decreases leaves@.len() - i,
    {
        let leaf: NodeId = leaves[i];
        let ghost done = ids(leaves@.take(i as int));
        proof {
            assert(ids(leaves@.take(i + 1)).drop_last() =~= done);
            assert(ids(leaves@.take(i + 1)).last() == leaf as int);
        }
        let mut cur: Option<NodeId> = Some(leaf);
        while cur.is_some()
            invariant
                a == views(nodes@),
                is_tree(a),
                nodes@.len() <= max_nodes(),
                i < leaves@.len() <= u32::MAX,
                done.len() == i,
                leaf < nodes@.len(),
                hits@.len() == nodes@.len(),
                cur matches Some(id) ==> id < nodes@.len() && within(a, id as int, leaf as int),
                forall|x: int|
                    0 <= x < nodes@.len() ==> #[trigger] hits@[x] == owned_below(a, x, done) + (if within(
                        a,
                        x,
                        leaf as int,
                    ) && !(cur is Some && within(a, x, cur->0 as int)) {
                        1nat
                    } else {
                        0nat
                    }),
                touched@.no_duplicates(),
                forall|x: NodeId| #[trigger]
                    touched@.contains(x) <==> x < nodes@.len() && hits@[x as int] > 0,
            decreases (if cur is Some { cur->0 + 1 } else { 0int }),
        {
            let id: NodeId = cur.unwrap();
            let k: usize = id as usize;
            proof {
                assert(within(a, id as int, id as int));
                lemma_hits_bound(a, id as int, done);
            }
            let ghost before = hits@;
            let ghost listed = touched@;
            if hits[k] == 0 {
                touched.push(id);
            }
            let h: u32 = hits[k] + 1;
            hits.set(k, h);
            let parent: Option<NodeId> = nodes[k].parent;
            proof {
                assert(a[id as int] == nodes@[id as int]@);
                assert forall|x: int| 0 <= x < nodes@.len() implies #[trigger] hits@[x] == owned_below(
                    a,
                    x,
                    done,
                ) + (if within(a, x, leaf as int) && !(parent is Some && within(
                    a,
                    x,
                    parent->0 as int,
                )) {
                    1nat
                } else {
                    0nat
                }) by {
                    assert(before[x] == owned_below(a, x, done) + (if within(a, x, leaf as int) && !within(
                        a,
                        x,
                        id as int,
                    ) {
                        1nat
                    } else {
                        0nat
                    }));
                    if x == id {
                        if parent is Some && within(a, x, parent->0 as int) {
                            lemma_within_bound(a, x, parent->0 as int);
                        }
                    }
                }
                if parent is Some {
                    assert(within(a, parent->0 as int, parent->0 as int));
                    assert(within(a, parent->0 as int, id as int));
                    lemma_within_transitive(a, parent->0 as int, id as int, leaf as int);
                }
                assert forall|x: NodeId| #[trigger] touched@.contains(x) <==> x < nodes@.len()
                    && hits@[x as int] > 0 by {
                    if touched@ != listed {
                        assert(touched@ == listed.push(id));
                        assert(touched@[touched@.len() - 1] == id);
                        if listed.contains(x) {
                            let q = choose|q: int| 0 <= q < listed.len() && listed[q] == x;
                            assert(touched@[q] == x);
                        }
                        if touched@.contains(x) && x != id {
                            let q = choose|q: int| 0 <= q < touched@.len() && touched@[q] == x;
                            assert(listed[q] == x);
                        }
                    }
                    assert(listed.contains(x) <==> x < nodes@.len() && before[x as int] > 0);
                }
                assert(!listed.contains(id) <==> before[id as int] == 0);
            }
            cur = parent;
        }
        i += 1;
    }
    proof {
        assert(leaves@.take(leaves@.len() as int) =~= leaves@);
    }
    touched
}

/// Credits every touched node with its share, and clears the scratch counts.
fn share_out(nodes: &mut Vec<Node>, hits: &mut Vec<u32>, touched: &Vec<NodeId>, m: u32)
    requires
        m > 0,
        old(hits)@.len() == old(nodes)@.len(),
        forall|x: int| 0 <= x < old(hits)@.len() ==> #[trigger] old(hits)@[x] <= m,
        touched@.no_duplicates(),
        forall|x: NodeId| #[trigger]
            touched@.contains(x) <==> x < old(nodes)@.len() && old(hits)@[x as int] > 0,
        old(nodes)@.len() <= max_nodes(),
        forall|x: int|
            0 <= x < old(nodes)@.len() ==> counts_below(
                (#[trigger] old(nodes)@[x])@.c,
                u64::MAX as nat,
            ),
    ensures
        same_but_counters(old(nodes)@, final(nodes)@),
        forall|x: int|
            0 <= x < final(nodes)@.len() ==> (#[trigger] final(nodes)@[x])@.c == credited(
                old(nodes)@[x]@.c,
                old(hits)@[x] as nat,
                m as nat,
                false,
                None,
            ),
        final(hits)@.len() == old(hits)@.len(),
        forall|x: int| 0 <= x < final(hits)@.len() ==> #[trigger] final(hits)@[x] == 0,
{
    let ghost was = nodes@;
    let ghost h0 = hits@;
    let mut i: usize = 0;
    while i < touched.len()
        invariant
            m > 0,
            i <= touched@.len(),
            h0.len() == was.len(),
            was.len() <= max_nodes(),
            touched@.no_duplicates(),
            forall|x: int| 0 <= x < h0.len() ==> #[trigger] h0[x] <= m,
            forall|x: NodeId| #[trigger]
                touched@.contains(x) <==> x < was.len() && h0[x as int] > 0,
            forall|x: int|
                0 <= x < was.len() ==> counts_below((#[trigger] was[x])@.c, u64::MAX as nat),
            same_but_counters(was, nodes@),
            hits@.len() == h0.len(),
            forall|x: int|
                0 <= x < was.len() ==> if touched@.take(i as int).contains(x as NodeId) {
                    (#[trigger] nodes@[x])@.c == credited(
                        was[x]@.c,
                        h0[x] as nat,
                        m as nat,
                        false,
                        None,
                    ) && hits@[x] == 0
                } else {
                    nodes@[x]@.c == was[x]@.c && hits@[x] == h0[x]
                },
        decreases touched@.len() - i,
    {
        let id: usize = touched[i] as usize;
        proof {
            assert(touched@.contains(touched@[i as int]));
            assert(!touched@.take(i as int).contains(id as NodeId)) by {
                if touched@.take(i as int).contains(id as NodeId) {
                    let q = choose|q: int| 0 <= q < i && touched@.take(i as int)[q] == id as NodeId;
                    assert(touched@[q] == touched@[i as int]);
                }
            }
            assert(nodes@[id as int]@.c == was[id as int]@.c);
            assert(counts_below(was[id as int]@.c, u64::MAX as nat));
        }
        let ghost mid = nodes@;
        let h: u32 = hits[id];
        nodes[id].c.distributed.credit(h as u64, m as u64);
        if h == m {
            nodes[id].c.exclusive = nodes[id].c.exclusive + 1;
        } else {
            nodes[id].c.shared = nodes[id].c.shared + 1;
        }
        hits.set(id, 0);
        proof {
            let front = touched@.take(i as int);
            let next = touched@.take(i + 1);
            assert(next =~= front.push(id as NodeId));
            assert(next[i as int] == id as NodeId);
            assert forall|x: int| 0 <= x < was.len() implies if next.contains(x as NodeId) {
                (#[trigger] nodes@[x])@.c == credited(
                    was[x]@.c,
                    h0[x] as nat,
                    m as nat,
                    false,
                    None,
                ) && hits@[x] == 0
            } else {
                nodes@[x]@.c == was[x]@.c && hits@[x] == h0[x]
            } by {
                if x != id {
                    assert(nodes@[x] == mid[x]);
                    if front.contains(x as NodeId) {
                        let q = choose|q: int| 0 <= q < front.len() && front[q] == x as NodeId;
                        assert(next[q] == x as NodeId);
                    }
                    if next.contains(x as NodeId) {
                        let q = choose|q: int| 0 <= q < next.len() && next[q] == x as NodeId;
                        assert(q < i);
                        assert(front[q] == x as NodeId);
                    }
                }
            }
            assert(same_but_counters(was, nodes@));
        }
        i += 1;
    }
    proof {
        assert(touched@.take(touched@.len() as int) =~= touched@);
        assert forall|x: int| 0 <= x < nodes@.len() implies (#[trigger] nodes@[x])@.c == credited(
            was[x]@.c,
            h0[x] as nat,
            m as nat,
            false,
            None,
        ) && hits@[x] == 0 by {
            if !touched@.contains(x as NodeId) {
                lemma_quotient_sign(0, m as int);
            }
        }
        assert forall|x: int| 0 <= x < hits@.len() implies #[trigger] hits@[x] == 0 by {
            assert(nodes@[x]@.c == nodes@[x]@.c);
        }
    }
}

/// Credits the canonical owner and everything above it with the sample.
fn represent(nodes: &mut Vec<Node>, leaf: NodeId, ratio: Option<Ratio>)
    requires
        is_tree(views(old(nodes)@)),
        old(nodes)@.len() <= max_nodes(),
        leaf < old(nodes)@.len(),
        ratio matches Some(r) ==> r.disk > 0,
        forall|x: int|
            0 <= x < old(nodes)@.len() ==> (#[trigger] old(nodes)@[x])@.c.represented < u64::MAX
                && old(nodes)@[x]@.c.comp_samples < u64::MAX,
    ensures
        same_but_counters(old(nodes)@, final(nodes)@),
        forall|x: int|
            0 <= x < final(nodes)@.len() ==> (#[trigger] final(nodes)@[x])@.c == represented(
                old(nodes)@[x]@.c,
                within(views(old(nodes)@), x, leaf as int),
                ratio,
            ),
{
    let ghost was = nodes@;
    let ghost a = views(nodes@);
    let mut cur: Option<NodeId> = Some(leaf);
    while cur.is_some()
        invariant
            a == views(was),
            is_tree(a),
            was.len() <= max_nodes(),
            leaf < was.len(),
            ratio matches Some(r) ==> r.disk > 0,
            forall|x: int|
                0 <= x < was.len() ==> (#[trigger] was[x])@.c.represented < u64::MAX
                    && was[x]@.c.comp_samples < u64::MAX,
            same_but_counters(was, nodes@),
            cur matches Some(id) ==> id < was.len() && within(a, id as int, leaf as int),
            forall|x: int|
                0 <= x < was.len() ==> (#[trigger] nodes@[x])@.c == represented(
                    was[x]@.c,
                    within(a, x, leaf as int) && !(cur is Some && within(a, x, cur->0 as int)),
                    ratio,
                ),
        decreases (if cur is Some { cur->0 + 1 } else { 0int }),
    {
        let id: NodeId = cur.unwrap();
        let k: usize = id as usize;
        let ghost before = nodes@;
        proof {
            assert(within(a, id as int, id as int));
            assert(nodes@[id as int]@.c == was[id as int]@.c);
            assert(a[id as int] == was[id as int]@);
        }
        nodes[k].c.represented = nodes[k].c.represented + 1;
        if let Some(r) = ratio {
            nodes[k].c.comp_samples = nodes[k].c.comp_samples + 1;
            nodes[k].c.uncompressed.credit(r.ram, r.disk);
        }
        let parent: Option<NodeId> = nodes[k].parent;
        proof {
            assert(a[id as int].parent == nodes@[id as int]@.parent);
            assert forall|x: int| 0 <= x < was.len() implies (#[trigger] nodes@[x])@.c
                == represented(
                was[x]@.c,
                within(a, x, leaf as int) && !(parent is Some && within(a, x, parent->0 as int)),
                ratio,
            ) by {
                if x == id {
                    if parent is Some && within(a, x, parent->0 as int) {
                        lemma_within_bound(a, x, parent->0 as int);
                    }
                } else {
                    assert(nodes@[x] == before[x]);
                }
            }
            if parent is Some {
                assert(within(a, parent->0 as int, parent->0 as int));
                assert(within(a, parent->0 as int, id as int));
                lemma_within_transitive(a, parent->0 as int, id as int, leaf as int);
            }
        }
        cur = parent;
    }
}

/// The counters of a node after a sample that it represents, if it does.
spec fn represented(c: CountersView, first: bool, ratio: Option<Ratio>) -> CountersView {
    CountersView {
        represented: if first {
            c.represented + 1
        } else {
            c.represented
        },
        comp_samples: if first && ratio is Some {
            c.comp_samples + 1
        } else {
            c.comp_samples
        },
        uncompressed: if first && ratio is Some {
            c.uncompressed + quotient(ratio->0.ram as int, ratio->0.disk as int)
        } else {
            c.uncompressed
        },
        ..c
    }
}

/// Where a path leads nowhere, no longer one does.
proof fn lemma_resolve_none(a: Seq<NodeView>, names: Seq<Seq<char>>, n: int)
    requires
        0 <= n <= names.len(),
        resolve(a, names.take(n)) is None,
    ensures
        resolve(a, names) is None,
    decreases names.len() - n,
{
    if n < names.len() {
        assert(names.take(n + 1).drop_last() =~= names.take(n));
        lemma_resolve_none(a, names, n + 1);
    } else {
        assert(names.take(n) =~= names);
    }
}

} // verus!
