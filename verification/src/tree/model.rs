//! What the tree of samples is, as mathematics: a sequence of nodes, each of
//! which names an earlier one as its parent.

use vstd::prelude::*;

use crate::rational::quotient;
use crate::text::components;

verus! {

/// The sample counts of one node.
#[verifier::ext_equal]
pub struct CountersView {
    pub represented: nat,
    pub distributed: real,
    pub exclusive: nat,
    pub shared: nat,
    pub comp_samples: nat,
    pub uncompressed: real,
}

/// One node.
#[verifier::ext_equal]
pub struct NodeView {
    pub name: Seq<char>,
    pub parent: Option<int>,
    pub subvol: bool,
    pub removed: bool,
    pub c: CountersView,
    pub sharers: Seq<Seq<char>>,
}

/// A whole tree. Node 0 is the root.
#[verifier::ext_equal]
pub struct TreeView {
    pub nodes: Seq<NodeView>,
    pub total_samples: nat,
}

/// Uncompressed over compressed size, as two byte counts.
pub struct RatioView {
    pub ram: nat,
    pub disk: nat,
}

/// Counters that have seen nothing.
pub open spec fn no_counts() -> CountersView {
    CountersView {
        represented: 0,
        distributed: 0 as real,
        exclusive: 0,
        shared: 0,
        comp_samples: 0,
        uncompressed: 0 as real,
    }
}

/// A node that has just been made.
pub open spec fn fresh(name: Seq<char>, parent: Option<int>) -> NodeView {
    NodeView {
        name,
        parent,
        subvol: false,
        removed: false,
        c: no_counts(),
        sharers: Seq::empty(),
    }
}

/// The tree without any sample: a root alone.
pub open spec fn empty_tree() -> TreeView {
    TreeView { nodes: seq![fresh(Seq::empty(), None)], total_samples: 0 }
}

/// Whether `c` is listed below `p`.
pub open spec fn child_of(a: Seq<NodeView>, p: int, c: int) -> bool {
    0 <= c < a.len() && a[c].parent == Some(p) && !a[c].removed
}

/// Whether `c` is listed below `p` under `name`.
pub open spec fn named_child(a: Seq<NodeView>, p: int, name: Seq<char>, c: int) -> bool {
    child_of(a, p, c) && a[c].name == name
}

/// The node listed below `p` under `name`.
pub open spec fn child(a: Seq<NodeView>, p: int, name: Seq<char>) -> Option<int> {
    if exists|c: int| named_child(a, p, name, c) {
        Some(choose|c: int| named_child(a, p, name, c))
    } else {
        None
    }
}

/// Whether the nodes make a tree: every node but the root has an earlier
/// parent, the root is never removed, and no two listed siblings share a name.
pub open spec fn is_tree(a: Seq<NodeView>) -> bool {
    &&& a.len() > 0
    &&& a[0].parent is None
    &&& !a[0].removed
    &&& a[0].name.len() == 0
    &&& forall|i: int|
        0 < i < a.len() ==> (#[trigger] a[i]).parent is Some && 0 <= a[i].parent->0 < i
    &&& forall|c: int, d: int|
        0 < c < a.len() && 0 < d < a.len() && !a[c].removed && !a[d].removed && (
        #[trigger] a[c]).parent == (#[trigger] a[d]).parent && a[c].name == a[d].name ==> c == d
}

/// Whether `anc` is `id` or above it.
pub open spec fn within(a: Seq<NodeView>, anc: int, id: int) -> bool
    decreases id,
{
    anc == id || match a[id].parent {
        Some(p) => 0 <= p < id && within(a, anc, p),
        None => false,
    }
}

/// The names from the root down to `id`.
pub open spec fn path(a: Seq<NodeView>, id: int) -> Seq<Seq<char>>
    decreases id,
{
    match a[id].parent {
        Some(p) => if 0 <= p < id {
            path(a, p).push(a[id].name)
        } else {
            Seq::empty()
        },
        None => Seq::empty(),
    }
}

/// Whether neither `id` nor anything above it was removed.
pub open spec fn live(a: Seq<NodeView>, id: int) -> bool
    decreases id,
{
    !a[id].removed && match a[id].parent {
        Some(p) => 0 <= p < id ==> live(a, p),
        None => true,
    }
}

/// Whether `id` lies in a top-level entry whose name starts with `<`.
pub open spec fn special(a: Seq<NodeView>, id: int) -> bool {
    exists|top: int|
        #[trigger] within(a, top, id) && 0 <= top < a.len() && a[top].parent == Some(0int)
            && a[top].name.len() > 0 && a[top].name[0] == '<'
}

/// Whether `d` is `id` or listed, directly or not, below it.
pub open spec fn attached(a: Seq<NodeView>, id: int, d: int) -> bool
    decreases d,
{
    d == id || (!a[d].removed && match a[d].parent {
        Some(p) => 0 <= p < d && attached(a, id, p),
        None => false,
    })
}

/// Whether `id` or anything listed below it is a subvolume.
pub open spec fn holds_subvol(a: Seq<NodeView>, id: int) -> bool {
    exists|d: int| 0 <= d < a.len() && #[trigger] attached(a, id, d) && a[d].subvol
}

/// The node that a path leads to.
pub open spec fn resolve(a: Seq<NodeView>, names: Seq<Seq<char>>) -> Option<int>
    decreases names.len(),
{
    if names.len() == 0 {
        Some(0)
    } else {
        match resolve(a, names.drop_last()) {
            Some(p) => child(a, p, names.last()),
            None => None,
        }
    }
}

/// `p` with a child called `name`, made where there is none, and that child.
pub open spec fn with_child(a: Seq<NodeView>, p: int, name: Seq<char>) -> (Seq<NodeView>, int) {
    match child(a, p, name) {
        Some(c) => (a, c),
        None => (a.push(fresh(name, Some(p))), a.len() as int),
    }
}

/// The nodes with every name of a path made where it is missing, and the last.
pub open spec fn placed(a: Seq<NodeView>, names: Seq<Seq<char>>) -> (Seq<NodeView>, int)
    decreases names.len(),
{
    if names.len() == 0 {
        (a, 0)
    } else {
        let (b, p) = placed(a, names.drop_last());
        with_child(b, p, names.last())
    }
}

/// The nodes with each of the paths placed and flagged as a subvolume.
pub open spec fn flagged(a: Seq<NodeView>, subvols: Seq<Seq<char>>) -> Seq<NodeView>
    decreases subvols.len(),
{
    if subvols.len() == 0 {
        a
    } else {
        let (b, id) = placed(flagged(a, subvols.drop_last()), components(subvols.last()));
        b.update(id, NodeView { subvol: true, ..b[id] })
    }
}

/// The nodes with each of the paths placed, and where.
pub open spec fn placed_all(a: Seq<NodeView>, paths: Seq<Seq<char>>) -> (Seq<NodeView>, Seq<int>)
    decreases paths.len(),
{
    if paths.len() == 0 {
        (a, Seq::empty())
    } else {
        let (b, ids) = placed_all(a, paths.drop_last());
        let (c, id) = placed(b, components(paths.last()));
        (c, ids.push(id))
    }
}

/// How many of `leaves` lie in the subtree of `id`.
pub open spec fn owned_below(a: Seq<NodeView>, id: int, leaves: Seq<int>) -> nat
    decreases leaves.len(),
{
    if leaves.len() == 0 {
        0
    } else {
        owned_below(a, id, leaves.drop_last()) + (if within(a, id, leaves.last()) {
            1nat
        } else {
            0nat
        })
    }
}

/// The counters of a node after a sample, `h` of whose `m` owners lie in its
/// subtree, the canonical owner among them where `first` says so.
pub open spec fn credited(
    c: CountersView,
    h: nat,
    m: nat,
    first: bool,
    ratio: Option<RatioView>,
) -> CountersView {
    CountersView {
        represented: if first {
            c.represented + 1
        } else {
            c.represented
        },
        distributed: c.distributed + quotient(h as int, m as int),
        exclusive: if h == m {
            c.exclusive + 1
        } else {
            c.exclusive
        },
        shared: if 0 < h < m {
            c.shared + 1
        } else {
            c.shared
        },
        comp_samples: if first && ratio is Some {
            c.comp_samples + 1
        } else {
            c.comp_samples
        },
        uncompressed: if first && ratio is Some {
            c.uncompressed + quotient(ratio->0.ram as int, ratio->0.disk as int)
        } else {
            c.uncompressed
        },
    }
}

/// The nodes after every one of them counted a sample with the given owners.
pub open spec fn counted(
    a: Seq<NodeView>,
    leaves: Seq<int>,
    ratio: Option<RatioView>,
) -> Seq<NodeView> {
    Seq::new(
        a.len(),
        |i: int|
            NodeView {
                c: credited(
                    a[i].c,
                    owned_below(a, i, leaves),
                    leaves.len(),
                    within(a, i, leaves[0]),
                    ratio,
                ),
                ..a[i]
            },
    )
}

/// The owners but for number `i`, the first few of them.
pub open spec fn co_owners(owners: Seq<Seq<char>>, i: int) -> Seq<Seq<char>> {
    let others = owners.remove(i);
    if others.len() <= 5 {
        others
    } else {
        others.take(5)
    }
}

/// The list of sharers after seeing `others`: new ones go to the end, and
/// where it is full the oldest leaves.
pub open spec fn noted(sharers: Seq<Seq<char>>, others: Seq<Seq<char>>) -> Seq<Seq<char>>
    decreases others.len(),
{
    if others.len() == 0 {
        sharers
    } else {
        let s = noted(sharers, others.drop_last());
        if s.contains(others.last()) {
            s
        } else if s.len() == 5 {
            s.drop_first().push(others.last())
        } else {
            s.push(others.last())
        }
    }
}

/// The nodes after the first `n` owners noted whom they share the sample with.
pub open spec fn shared_among(
    a: Seq<NodeView>,
    leaves: Seq<int>,
    owners: Seq<Seq<char>>,
    n: nat,
) -> Seq<NodeView>
    decreases n,
{
    if n == 0 {
        a
    } else {
        let b = shared_among(a, leaves, owners, (n - 1) as nat);
        let id = leaves[n - 1];
        b.update(
            id,
            NodeView { sharers: noted(b[id].sharers, co_owners(owners, n - 1)), ..b[id] },
        )
    }
}

/// The tree after one sample.
pub open spec fn sampled(
    t: TreeView,
    owners: Seq<Seq<char>>,
    subvols: Seq<Seq<char>>,
    ratio: Option<RatioView>,
) -> TreeView {
    if owners.len() == 0 {
        t
    } else {
        let (a, leaves) = placed_all(flagged(t.nodes, subvols), owners);
        TreeView {
            nodes: shared_among(counted(a, leaves, ratio), leaves, owners, owners.len()),
            total_samples: t.total_samples + 1,
        }
    }
}

/// `x - y`, stopping at zero.
pub open spec fn nat_less(x: nat, y: nat) -> nat {
    if x > y {
        (x - y) as nat
    } else {
        0
    }
}

/// `x - y`, stopping at zero.
pub open spec fn real_less(x: real, y: real) -> real {
    if x > y {
        x - y
    } else {
        0 as real
    }
}

/// The counters without those of a subtree that is gone.
pub open spec fn reduced(c: CountersView, o: CountersView) -> CountersView {
    CountersView {
        represented: nat_less(c.represented, o.represented),
        distributed: real_less(c.distributed, o.distributed),
        exclusive: nat_less(c.exclusive, o.exclusive),
        shared: nat_less(c.shared, o.shared),
        comp_samples: nat_less(c.comp_samples, o.comp_samples),
        uncompressed: real_less(c.uncompressed, o.uncompressed),
    }
}

/// The nodes with `id` detached, its counters taken off everything above it.
pub open spec fn without(a: Seq<NodeView>, id: int) -> Seq<NodeView> {
    if id == 0 || !live(a, id) {
        a
    } else {
        Seq::new(
            a.len(),
            |i: int|
                if i == id {
                    NodeView { removed: true, ..a[i] }
                } else if within(a, i, id) {
                    NodeView { c: reduced(a[i].c, a[id].c), ..a[i] }
                } else {
                    a[i]
                },
        )
    }
}

/// How many names a list of paths has.
pub open spec fn name_count(paths: Seq<Seq<char>>) -> nat
    decreases paths.len(),
{
    if paths.len() == 0 {
        0
    } else {
        name_count(paths.drop_last()) + components(paths.last()).len()
    }
}

/// Whether every whole counter is below `limit`.
pub open spec fn counts_below(c: CountersView, limit: nat) -> bool {
    &&& c.represented < limit
    &&& c.exclusive < limit
    &&& c.shared < limit
    &&& c.comp_samples < limit
}

/// Whether a tree whose counters do not exceed its number of samples can take a
/// sample: the sizes make a ratio, the samples can be counted, and ids can tell
/// the nodes apart.
pub open spec fn can_take(
    t: TreeView,
    owners: Seq<Seq<char>>,
    subvols: Seq<Seq<char>>,
    ratio: Option<RatioView>,
) -> bool {
    &&& ratio matches Some(r) ==> r.disk > 0
    &&& owners.len() > 0 ==> {
        &&& t.total_samples < u64::MAX
        &&& owners.len() <= u32::MAX
        &&& placed_all(flagged(t.nodes, subvols), owners).0.len() <= 0x1_0000_0000
    }
}

/// Samples of known compression, and the sum of their ratios of uncompressed to on-disk
/// size, where there are any.
pub open spec fn measured(c: CountersView) -> Option<(nat, real)> {
    if c.comp_samples > 0 && c.uncompressed > 0 as real {
        Some((c.comp_samples, c.uncompressed))
    } else {
        None
    }
}

} // verus!
