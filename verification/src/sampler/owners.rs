//! Who owns a byte, and under which paths.

use vstd::prelude::*;

use crate::btrfs::{errno_name, error_text, is_linux, is_not_found, Errnos};
use crate::btrfs::ops::{BLOCK_GROUP_DATA, BLOCK_GROUP_SYSTEM, FileExtent, InodeRef};
use crate::sampler::{join_path, joined_path};
use crate::sorting::{in_order, is_ranking, lemma_one_order, ranks, sort_positions};
use crate::text::{
    byte_len, concat, decimal, decimal_text, lemma_name_order, lemma_texts_push, len_of, name_less,
    name_order, owned, same_text, texts, Order,
};
use crate::tree::{Ratio, Sample};

verus! {

// ---- buckets ----

/// The bucket of a chunk that holds no file data.
pub open spec fn chunk_bucket(flags: u64) -> Option<Seq<char>> {
    if flags & 1 != 0 {
        None
    } else if flags & 2 != 0 {
        Some("<SYSTEM>"@)
    } else {
        Some("<METADATA>"@)
    }
}

/// The sample of a chunk that holds no file data.
pub fn bucket_of_chunk(flags: u64) -> (r: Option<Sample>)
    ensures
        match r {
            Some(s) => chunk_bucket(flags) matches Some(name) && is_bucket(s, name),
            None => chunk_bucket(flags) is None,
        },
{
    if flags & BLOCK_GROUP_DATA == 0 {
        let b = if flags & BLOCK_GROUP_SYSTEM != 0 {
            "<SYSTEM>"
        } else {
            "<METADATA>"
        };
        Some(Sample::bucket(b))
    } else {
        None
    }
}

/// Whether a sample is that of a bucket.
pub open spec fn is_bucket(s: Sample, name: Seq<char>) -> bool {
    &&& texts(s.owners@) == seq![name]
    &&& s.subvols@.len() == 0
    &&& s.ratio is None
}

/// The bucket of a byte whose owners could not be had, for an error that is
/// called `name`.
pub open spec fn failure_bucket(code: Option<i32>, name: Seq<char>) -> Seq<char> {
    if code == Some(2i32) {
        "<UNUSED>"@
    } else {
        "<ERROR>/"@ + name
    }
}

/// The sample of a byte whose owners could not be had, for an error that is
/// called `name`.
pub fn bucket_of_named_failure(code: Option<i32>, name: &str) -> (r: Sample)
    ensures
        is_bucket(r, failure_bucket(code, name@)),
{
    if is_not_found(code) {
        Sample::bucket("<UNUSED>")
    } else {
        Sample::bucket(concat("<ERROR>/", name).as_str())
    }
}

/// The sample of a byte whose owners could not be had: there is no extent, or
/// it is an error.
pub fn bucket_of_failure(code: Option<i32>, text: &str) -> (r: Sample)
    ensures
        exists|k: Errnos| is_linux(k) && is_bucket(
            r,
            failure_bucket(code, #[trigger] error_text(k, code, text@)),
        ),
{
    let name = errno_name(code, text);
    bucket_of_named_failure(code, name.as_str())
}

/// The bucket of a chunk goes by its type alone: how the chunk is spread over the
/// devices, or any other bit, makes no difference. A chunk that may hold file data
/// has no bucket, whatever else it holds; of the others those that hold the chunk
/// tree are the system's.
pub proof fn law_bucket_goes_by_the_type(flags: u64, other: u64)
    ensures
        other & 7 == 0 ==> chunk_bucket(flags | other) == chunk_bucket(flags),
        flags & 7 == other & 7 ==> chunk_bucket(flags) == chunk_bucket(other),
        chunk_bucket(flags | 1) is None,
        flags % 2 == 1 ==> chunk_bucket(flags) is None,
        flags % 2 == 0 && (flags / 2) % 2 == 1 ==> chunk_bucket(flags) == Some("<SYSTEM>"@),
        flags % 2 == 0 && (flags / 2) % 2 == 0 ==> chunk_bucket(flags) == Some("<METADATA>"@),
        flags & 4 != 0 && flags & 3 == 0 ==> chunk_bucket(flags) == Some("<METADATA>"@),
{
    assert(other & 7 == 0 ==> (flags | other) & 1 == flags & 1 && (flags | other) & 2 == flags & 2)
        by (bit_vector);
    assert(flags & 7 == other & 7 ==> flags & 1 == other & 1 && flags & 2 == other & 2)
        by (bit_vector);
    assert((flags | 1) & 1 != 0) by (bit_vector);
    assert((flags % 2 == 1) == (flags & 1 != 0) && (flags % 2 == 0) == (flags & 1 == 0) && ((flags
        / 2) % 2 == 1) == (flags & 2 != 0) && ((flags / 2) % 2 == 0) == (flags & 2 == 0))
        by (bit_vector);
    assert(flags & 3 == 0 ==> flags & 1 == 0 && flags & 2 == 0) by (bit_vector);
}

/// A byte in no extent is unused, whatever its error is called. Any other failure
/// has a bucket of its own below that of the errors, which only its name decides.
pub proof fn law_failures_have_their_buckets(
    code: Option<i32>,
    other: Option<i32>,
    name: Seq<char>,
    another: Seq<char>,
)
    ensures
        failure_bucket(Some(2i32), name) == "<UNUSED>"@,
        code != Some(2i32) ==> failure_bucket(code, name) != "<UNUSED>"@,
        code != Some(2i32) ==> failure_bucket(code, name) == "<ERROR>/"@ + name,
        code != Some(2i32) && other != Some(2i32) ==> (failure_bucket(code, name)
            == failure_bucket(other, another) <==> name == another),
        failure_bucket(code, name)[0] == '<',
{
    reveal_strlit("<UNUSED>");
    reveal_strlit("<ERROR>/");
    let head = "<ERROR>/"@;
    assert((head + name)[1] == 'E');
    assert((head + name).skip(8) =~= name);
    assert((head + another).skip(8) =~= another);
}

// ---- owners ----

/// What came of looking up the paths of one reference.
pub enum RefPaths {
    /// The subvolume cannot be reached.
    NoSubvol,
    /// The subvolume's path, and the paths in there.
    Paths(String, Vec<String>),
    /// An error that is called this.
    Failed(String),
}

/// What came of looking up the paths of one reference.
#[verifier::ext_equal]
pub enum RefPathsView {
    NoSubvol,
    Paths(Seq<char>, Seq<Seq<char>>),
    Failed(Seq<char>),
}

impl View for RefPaths {
    type V = RefPathsView;

    open spec fn view(&self) -> RefPathsView {
        match *self {
            RefPaths::NoSubvol => RefPathsView::NoSubvol,
            RefPaths::Paths(subvol, paths) => RefPathsView::Paths(subvol@, texts(paths@)),
            RefPaths::Failed(name) => RefPathsView::Failed(name@),
        }
    }
}

/// What came of each lookup.
pub open spec fn lookups(v: Seq<RefPaths>) -> Seq<RefPathsView> {
    v.map_values(|x: RefPaths| x@)
}

/// A path that owns the byte, the subvolume it counts under, and the reference
/// that it comes from if it is a file's.
#[verifier::ext_equal]
pub struct OwnerView {
    pub root: u64,
    pub path: Seq<char>,
    pub index: Option<int>,
}

/// The path of an owner that stands for no file.
pub open spec fn placeholder(path: Seq<char>) -> OwnerView {
    OwnerView { root: u64::MAX, path, index: None }
}

/// The owners that reference number `i` brings.
pub open spec fn owners_of_ref(r: InodeRef, i: int, found: RefPathsView) -> Seq<OwnerView> {
    match found {
        RefPathsView::NoSubvol => seq![
            placeholder("<UNREACHABLE>/subvol "@ + decimal(r.root as nat)),
        ],
        RefPathsView::Paths(subvol, paths) => if paths.len() == 0 {
            seq![placeholder("<UNREACHABLE>/unlinked"@)]
        } else {
            Seq::new(
                paths.len(),
                |k: int|
                    OwnerView {
                        root: r.root,
                        path: joined_path(subvol, paths[k]),
                        index: Some(i),
                    },
            )
        },
        RefPathsView::Failed(name) => seq![placeholder("<ERROR>/"@ + name)],
    }
}

/// The owners that the first `n` references bring.
pub open spec fn all_owners(
    refs: Seq<InodeRef>,
    found: Seq<RefPathsView>,
    n: nat,
) -> Seq<OwnerView>
    decreases n,
{
    if n == 0 {
        Seq::empty()
    } else {
        all_owners(refs, found, (n - 1) as nat) + owners_of_ref(refs[n - 1], n - 1, found[n - 1])
    }
}

/// The subvolumes that the first `n` references show, but for the top level.
pub open spec fn all_subvols(found: Seq<RefPathsView>, n: nat) -> Seq<Seq<char>>
    decreases n,
{
    if n == 0 {
        Seq::empty()
    } else {
        let rest = all_subvols(found, (n - 1) as nat);
        match found[n - 1] {
            RefPathsView::Paths(subvol, paths) => if paths.len() > 0 && subvol.len() > 0 {
                rest.push(subvol)
            } else {
                rest
            },
            _ => rest,
        }
    }
}

/// Whether `x` goes before `y`: by lower subvolume, then by shorter path, then
/// by the path itself.
pub open spec fn more_canonical(x: OwnerView, y: OwnerView) -> bool {
    ||| x.root < y.root
    ||| x.root == y.root && byte_len(x.path) < byte_len(y.path)
    ||| x.root == y.root && byte_len(x.path) == byte_len(y.path) && name_less(x.path, y.path)
}

/// Whether `sorted` is `all` in order, equals in the order that they had.
pub open spec fn is_by_canon(all: Seq<OwnerView>, sorted: Seq<OwnerView>) -> bool {
    exists|order: Seq<usize>| #[trigger] canonical_order(all, sorted, order)
}

/// Whether `order` puts `all` in order, giving `sorted`.
pub open spec fn canonical_order(
    all: Seq<OwnerView>,
    sorted: Seq<OwnerView>,
    order: Seq<usize>,
) -> bool {
    &&& is_ranking(order, all.len() as int, |x: int, y: int| more_canonical(all[x], all[y]))
    &&& sorted.len() == order.len()
    &&& forall|k: int| 0 <= k < sorted.len() ==> #[trigger] sorted[k] == all[order[k] as int]
}

/// The paths without those that repeat the one before.
pub open spec fn unrepeated(s: Seq<Seq<char>>) -> Seq<Seq<char>>
    decreases s.len(),
{
    if s.len() <= 1 {
        s
    } else if s.last() == s[s.len() - 2] {
        unrepeated(s.drop_last())
    } else {
        unrepeated(s.drop_last()).push(s.last())
    }
}

/// The owners' paths.
pub open spec fn owner_paths(s: Seq<OwnerView>) -> Seq<Seq<char>> {
    s.map_values(|o: OwnerView| o.path)
}

/// Whether `r` has the texts of `all`, each once and in order.
pub open spec fn is_sorted_set(all: Seq<Seq<char>>, r: Seq<Seq<char>>) -> bool {
    &&& forall|x: Seq<char>| #[trigger] r.contains(x) <==> all.contains(x)
    &&& in_order(r, |x: Seq<char>, y: Seq<char>| name_less(x, y))
}

/// The owner paths of a byte.
pub struct Owners {
    /// The paths, canonical owner first.
    pub owners: Vec<String>,
    /// The subvolumes seen on the way.
    pub subvols: Vec<String>,
    /// Which reference the canonical owner comes from, if it is a file.
    pub canonical: Option<usize>,
}

struct Owner {
    root: u64,
    path: String,
    index: Option<usize>,
}

impl View for Owner {
    type V = OwnerView;

    closed spec fn view(&self) -> OwnerView {
        OwnerView {
            root: self.root,
            path: self.path@,
            index: match self.index {
                Some(i) => Some(i as int),
                None => None,
            },
        }
    }
}

spec fn owner_views(v: Seq<Owner>) -> Seq<OwnerView> {
    v.map_values(|o: Owner| o@)
}

proof fn lemma_owner_views_push(v: Seq<Owner>, o: Owner)
    ensures
        owner_views(v.push(o)) == owner_views(v).push(o@),
{
    assert(owner_views(v.push(o)) =~= owner_views(v).push(o@));
}

/// Adds the owners that one reference brings.
fn add_owners(owners: &mut Vec<Owner>, r: InodeRef, i: usize, found: &RefPaths)
    ensures
        owner_views(final(owners)@) == owner_views(old(owners)@) + owners_of_ref(
            r,
            i as int,
            found@,
        ),
{
    let ghost was = owner_views(owners@);
    let text = match found {
        RefPaths::NoSubvol => concat("<UNREACHABLE>/subvol ", decimal_text(r.root).as_str()),
        RefPaths::Failed(name) => concat("<ERROR>/", name.as_str()),
        RefPaths::Paths(subvol, paths) => {
            if paths.len() == 0 {
                owned("<UNREACHABLE>/unlinked")
            } else {
                let mut k: usize = 0;
                let ghost goal = owners_of_ref(r, i as int, found@);
                assert(was + goal.take(0) =~= was);
                while k < paths.len()
                    invariant
                        k <= paths@.len(),
                        goal == Seq::new(
                            paths@.len(),
                            |k: int|
                                OwnerView {
                                    root: r.root,
                                    path: joined_path(subvol@, texts(paths@)[k]),
                                    index: Some(i as int),
                                },
                        ),
                        owner_views(owners@) == was + goal.take(k as int),
                    decreases paths@.len() - k,
                {
                    let path = join_path(subvol.as_str(), paths[k].as_str());
                    let o = Owner { root: r.root, path, index: Some(i) };
                    proof {
                        lemma_owner_views_push(owners@, o);
                        assert(o@ == goal[k as int]);
                        assert(goal.take(k + 1) =~= goal.take(k as int).push(o@));
                        assert((was + goal.take(k as int)).push(o@) =~= was + goal.take(k + 1));
                    }
                    owners.push(o);
                    k += 1;
                }
                assert(goal.take(goal.len() as int) =~= goal);
                return ;
            }
        },
    };
    let o = Owner { root: u64::MAX, path: text, index: None };
    proof {
        lemma_owner_views_push(owners@, o);
        assert(o@ == placeholder(text@));
        assert(was.push(o@) =~= was + seq![o@]);
    }
    owners.push(o);
}

/// The paths of a subvolume, if it shows any.
fn shown_subvol(found: &RefPaths) -> (r: Option<String>)
    ensures
        match r {
            Some(s) => found@ matches RefPathsView::Paths(subvol, paths) && paths.len() > 0
                && subvol.len() > 0 && s@ == subvol,
            None => !(found@ matches RefPathsView::Paths(subvol, paths) && paths.len() > 0
                && subvol.len() > 0),
        },
{
    match found {
        RefPaths::Paths(subvol, paths) => {
            if paths.len() > 0 && !subvol.as_str().is_empty() {
                Some(owned(subvol.as_str()))
            } else {
                None
            }
        },
        _ => None,
    }
}

proof fn lemma_canon_order(x: OwnerView, y: OwnerView, z: OwnerView)
    ensures
        more_canonical(x, y) ==> !more_canonical(y, x),
        more_canonical(x, y) && more_canonical(y, z) ==> more_canonical(x, z),
        more_canonical(x, z) ==> more_canonical(x, y) || more_canonical(y, z),
{
    lemma_name_order(x.path, y.path, z.path);
    lemma_name_order(x.path, z.path, y.path);
    lemma_name_order(y.path, z.path, x.path);
}

/// The owners in order.
fn sort_owners(all: Vec<Owner>) -> (r: (Vec<Owner>, Ghost<Seq<usize>>))
    ensures
        canonical_order(owner_views(all@), owner_views(r.0@), r.1@),
{
    let mut lens: Vec<usize> = Vec::new();
    let mut i: usize = 0;
    while i < all.len()
        invariant
            i <= all@.len(),
            lens@.len() == i,
            forall|k: int| 0 <= k < i ==> #[trigger] lens@[k] == byte_len(all@[k].path@),
        decreases all@.len() - i,
    {
        lens.push(len_of(all[i].path.as_str()));
        i += 1;
    }
    let ghost vs = owner_views(all@);
    let ghost lt = |x: int, y: int|
        more_canonical(owner_views(all@)[x], owner_views(all@)[y]);
    proof {
        assert forall|a: int, b: int, c: int|
            0 <= a < all@.len() && 0 <= b < all@.len() && 0 <= c < all@.len() && #[trigger] lt(
                a,
                b,
            ) && #[trigger] lt(b, c) implies lt(a, c) by {
            lemma_canon_order(vs[a], vs[b], vs[c]);
        }
        assert forall|a: int, b: int, c: int|
            0 <= a < all@.len() && 0 <= b < all@.len() && 0 <= c < all@.len() && #[trigger] lt(
                a,
                c,
            ) implies #[trigger] lt(a, b) || lt(b, c) by {
            lemma_canon_order(vs[a], vs[b], vs[c]);
        }
        assert forall|a: int, b: int|
            0 <= a < all@.len() && 0 <= b < all@.len() && #[trigger] lt(a, b) implies !lt(b, a) by {
            lemma_canon_order(vs[a], vs[b], vs[a]);
        }
    }
    let less = |x: usize, y: usize| -> (r: bool)
        requires
            x < all@.len(),
            y < all@.len(),
            lens@.len() == all@.len(),
            forall|k: int|
                0 <= k < all@.len() ==> #[trigger] lens@[k] == byte_len(all@[k].path@),
        ensures
            r == lt(x as int, y as int),
        {
            assert(owner_views(all@)[x as int] == all@[x as int]@);
            assert(owner_views(all@)[y as int] == all@[y as int]@);
            all[x].root < all[y].root || (all[x].root == all[y].root && (lens[x] < lens[y] || (
            lens[x] == lens[y] && is_before(all[x].path.as_str(), all[y].path.as_str()))))
        };
    let order = sort_positions(all.len(), &less, Ghost(lt));
    let mut sorted: Vec<Owner> = Vec::new();
    let mut k: usize = 0;
    while k < order.len()
        invariant
            k <= order@.len(),
            order@.len() == all@.len(),
            forall|j: int| 0 <= j < order@.len() ==> (#[trigger] order@[j]) < all@.len(),
            vs == owner_views(all@),
            sorted@.len() == k,
            forall|j: int| 0 <= j < k ==> (#[trigger] sorted@[j])@ == vs[order@[j] as int],
        decreases order@.len() - k,
    {
        let o = &all[order[k]];
        let copy = Owner { root: o.root, path: owned(o.path.as_str()), index: o.index };
        assert(copy@ == vs[order@[k as int] as int]);
        sorted.push(copy);
        k += 1;
    }
    proof {
        let r = owner_views(sorted@);
        assert forall|j: int| 0 <= j < r.len() implies #[trigger] r[j] == vs[order@[j] as int] by {
            assert(r[j] == sorted@[j]@);
        }
        assert(is_ranking(
            order@,
            vs.len() as int,
            |x: int, y: int| more_canonical(vs[x], vs[y]),
        ));
    }
    (sorted, Ghost(order@))
}

fn is_before(a: &str, b: &str) -> (r: bool)
    ensures
        r == name_less(a@, b@),
{
    match name_order(a, b) {
        Order::Before => true,
        _ => false,
    }
}

/// The owners' paths without those that repeat the one before.
fn distinct_paths(sorted: &Vec<Owner>) -> (r: Vec<String>)
    ensures
        texts(r@) == unrepeated(owner_paths(owner_views(sorted@))),
{
    let ghost all = owner_paths(owner_views(sorted@));
    let mut r: Vec<String> = Vec::new();
    let mut i: usize = 0;
    assert(texts(r@) =~= all.take(0));
    while i < sorted.len()
        invariant
            i <= sorted@.len(),
            all == owner_paths(owner_views(sorted@)),
            texts(r@) == unrepeated(all.take(i as int)),
        decreases sorted@.len() - i,
    {
        let ghost next = all.take(i + 1);
        assert(next.drop_last() =~= all.take(i as int));
        assert(all[i as int] == sorted@[i as int].path@);
        let fresh = i == 0 || !same_text(sorted[i].path.as_str(), sorted[i - 1].path.as_str());
        if fresh {
            let s = owned(sorted[i].path.as_str());
            proof {
                lemma_texts_push(r@, s);
                if i == 0 {
                    assert(next =~= seq![s@]);
                    assert(texts(r@).push(s@) =~= next);
                } else {
                    assert(all[i - 1] == sorted@[i - 1].path@);
                    assert(next[next.len() - 2] == all[i - 1]);
                }
            }
            r.push(s);
        } else {
            assert(all[i - 1] == sorted@[i - 1].path@);
            assert(next[next.len() - 2] == all[i - 1]);
        }
        i += 1;
    }
    assert(all.take(all.len() as int) =~= all);
    r
}

/// Adds `s` to texts that are in order, unless it is among them.
fn add_sorted(r: &mut Vec<String>, s: String)
    requires
        in_order(texts(old(r)@), |x: Seq<char>, y: Seq<char>| name_less(x, y)),
    ensures
        in_order(texts(final(r)@), |x: Seq<char>, y: Seq<char>| name_less(x, y)),
        forall|x: Seq<char>| #[trigger]
            texts(final(r)@).contains(x) <==> texts(old(r)@).contains(x) || x == s@,
{
    let ghost was = texts(r@);
    let ghost lt = |x: Seq<char>, y: Seq<char>| name_less(x, y);
    let mut i: usize = 0;
    while i < r.len() && is_before(r[i].as_str(), s.as_str())
        invariant
            was == texts(r@),
            i <= r@.len(),
            forall|k: int| 0 <= k < i ==> name_less(#[trigger] was[k], s@),
        decreases r@.len() - i,
    {
        assert(was[i as int] == r@[i as int]@);
        i += 1;
    }
    if i < r.len() && same_text(r[i].as_str(), s.as_str()) {
        assert(was[i as int] == s@);
        return ;
    }
    let ghost word = s@;
    r.insert(i, s);
    proof {
        let now = texts(r@);
        assert(now =~= was.insert(i as int, word));
        assert forall|k: int| i <= k < was.len() implies name_less(word, #[trigger] was[k]) by {
            lemma_name_order(was[i as int], word, was[k]);
            lemma_name_order(word, was[i as int], was[k]);
            if k > i {
                assert(lt(was[i as int], was[k]));
            }
        }
        assert forall|j: int, k: int| 0 <= j < k < now.len() implies lt(
            #[trigger] now[j],
            #[trigger] now[k],
        ) by {
            if k < i {
                assert(lt(was[j], was[k]));
            } else if k == i {
            } else if j < i {
                assert(lt(was[j], was[k - 1]));
            } else if j == i {
            } else {
                assert(lt(was[j - 1], was[k - 1]));
            }
        }
        assert forall|x: Seq<char>| #[trigger] now.contains(x) <==> was.contains(x) || x
            == word by {
            assert(now[i as int] == word);
            if was.contains(x) {
                let k = choose|k: int| 0 <= k < was.len() && was[k] == x;
                assert(now[if k < i {
                    k
                } else {
                    k + 1
                }] == x);
            }
            if now.contains(x) {
                let k = choose|k: int| 0 <= k < now.len() && now[k] == x;
                if k < i {
                    assert(was[k] == x);
                } else if k > i {
                    assert(was[k - 1] == x);
                }
            }
        }
    }
}

/// What the lookups of a byte's references come to.
pub open spec fn attributed(
    refs: Seq<InodeRef>,
    found: Seq<RefPathsView>,
    sorted: Seq<OwnerView>,
    owners: Seq<Seq<char>>,
    subvols: Seq<Seq<char>>,
    canonical: Option<usize>,
) -> bool {
    &&& is_by_canon(all_owners(refs, found, refs.len()), sorted)
    &&& owners == unrepeated(owner_paths(sorted))
    &&& is_sorted_set(all_subvols(found, refs.len()), subvols)
    &&& sorted.len() > 0
    &&& sorted[0].index == (match canonical {
        Some(i) => Some(i as int),
        None => None,
    })
}

/// The owners of a byte from its references and what came of looking up each.
pub fn attribute(refs: &Vec<InodeRef>, found: &Vec<RefPaths>) -> (r: Owners)
    requires
        found@.len() == refs@.len(),
    ensures
        refs@.len() == 0 ==> texts(r.owners@) == seq!["<UNREACHABLE>"@] && r.subvols@.len() == 0
            && r.canonical is None,
        refs@.len() > 0 ==> exists|sorted: Seq<OwnerView>| #[trigger]
            attributed(
                refs@,
                lookups(found@),
                sorted,
                texts(r.owners@),
                texts(r.subvols@),
                r.canonical,
            ),
        r.owners@.len() > 0,
        r.canonical matches Some(i) ==> i < refs@.len(),
{
    if refs.len() == 0 {
        let b = Sample::bucket("<UNREACHABLE>");
        assert(texts(b.owners@).len() == 1);
        return Owners { owners: b.owners, subvols: Vec::new(), canonical: None };
    }
    let mut all: Vec<Owner> = Vec::new();
    let mut subvols: Vec<String> = Vec::new();
    let ghost views = lookups(found@);
    let mut i: usize = 0;
    assert(owner_views(all@) =~= Seq::<OwnerView>::empty());
    assert(texts(subvols@) =~= Seq::<Seq<char>>::empty());
    while i < refs.len()
        invariant
            found@.len() == refs@.len(),
            views == lookups(found@),
            i <= refs@.len(),
            owner_views(all@) == all_owners(refs@, views, i as nat),
            is_sorted_set(all_subvols(views, i as nat), texts(subvols@)),
            i > 0 ==> all@.len() > 0,
        decreases refs@.len() - i,
    {
        assert(views[i as int] == found@[i as int]@);
        add_owners(&mut all, refs[i], i, &found[i]);
        proof {
            assert(owner_views(all@).len() == all@.len());
            assert(owners_of_ref(refs@[i as int], i as int, views[i as int]).len() > 0);
        }
        let ghost before = all_subvols(views, i as nat);
        if let Some(s) = shown_subvol(&found[i]) {
            let ghost word = s@;
            add_sorted(&mut subvols, s);
            proof {
                let after = all_subvols(views, (i + 1) as nat);
                assert(after == before.push(word));
                assert forall|x: Seq<char>| #[trigger]
                    texts(subvols@).contains(x) <==> after.contains(x) by {
                    assert(after[before.len() as int] == word);
                    if before.contains(x) {
                        let k = choose|k: int| 0 <= k < before.len() && before[k] == x;
                        assert(after[k] == x);
                    }
                    if after.contains(x) {
                        let k = choose|k: int| 0 <= k < after.len() && after[k] == x;
                        if k < before.len() {
                            assert(before[k] == x);
                        }
                    }
                }
            }
        }
        i += 1;
    }
    let ghost unsorted = owner_views(all@);
    let (sorted, Ghost(order)) = sort_owners(all);
    let ghost vs = owner_views(sorted@);
    proof {
        assert(canonical_order(unsorted, vs, order));
        assert(vs.len() == sorted@.len());
        assert(vs[0] == sorted@[0]@);
        lemma_indices(refs@, views, refs@.len());
        assert(vs[0] == unsorted[order[0] as int]);
        lemma_unrepeated(owner_paths(vs));
    }
    let canonical = sorted[0].index;
    let owners = distinct_paths(&sorted);
    assert(texts(owners@).len() == owners@.len());
    let r = Owners { owners, subvols, canonical };
    assert(attributed(
        refs@,
        lookups(found@),
        vs,
        texts(r.owners@),
        texts(r.subvols@),
        r.canonical,
    ));
    r
}

proof fn lemma_indices(refs: Seq<InodeRef>, found: Seq<RefPathsView>, n: nat)
    requires
        n <= refs.len(),
    ensures
        forall|k: int|
            0 <= k < all_owners(refs, found, n).len() ==> ((#[trigger] all_owners(
                refs,
                found,
                n,
            )[k]).index matches Some(i) ==> 0 <= i < n),
    decreases n,
{
    if n > 0 {
        lemma_indices(refs, found, (n - 1) as nat);
        let before = all_owners(refs, found, (n - 1) as nat);
        let all = all_owners(refs, found, n);
        assert forall|k: int| 0 <= k < all.len() implies ((#[trigger] all[k]).index matches Some(
            i,
        ) ==> 0 <= i < n) by {
            if k < before.len() {
                assert(all[k] == before[k]);
            }
        }
    }
}

/// The first path stays, and none is lost.
proof fn lemma_unrepeated(s: Seq<Seq<char>>)
    ensures
        s.len() > 0 ==> unrepeated(s).len() > 0 && unrepeated(s)[0] == s[0] && unrepeated(s).last()
            == s.last(),
        forall|x: Seq<char>| #[trigger] unrepeated(s).contains(x) <==> s.contains(x),
    decreases s.len(),
{
    if s.len() > 1 {
        let front = s.drop_last();
        let u = unrepeated(front);
        lemma_unrepeated(front);
        assert forall|x: Seq<char>| #[trigger] unrepeated(s).contains(x) <==> s.contains(x) by {
            assert(s[s.len() - 1] == s.last());
            if front.contains(x) {
                let k = choose|k: int| 0 <= k < front.len() && front[k] == x;
                assert(s[k] == x);
            }
            if s.contains(x) {
                let k = choose|k: int| 0 <= k < s.len() && s[k] == x;
                if k < front.len() {
                    assert(front[k] == x);
                }
            }
            assert(u.contains(x) <==> front.contains(x));
            if s.last() == s[s.len() - 2] {
                assert(front[s.len() - 2] == s.last());
            } else {
                let r = u.push(s.last());
                assert(r[u.len() as int] == s.last());
                if u.contains(x) {
                    let k = choose|k: int| 0 <= k < u.len() && u[k] == x;
                    assert(r[k] == x);
                }
                if r.contains(x) {
                    let k = choose|k: int| 0 <= k < r.len() && r[k] == x;
                    if k < u.len() {
                        assert(u[k] == x);
                    }
                }
            }
        }
    }
}

// ---- what holds of the owners ----

/// There is one way only to put owners in order.
pub proof fn law_one_canonical_order(
    all: Seq<OwnerView>,
    sorted: Seq<OwnerView>,
    other: Seq<OwnerView>,
)
    requires
        all.len() <= usize::MAX,
        is_by_canon(all, sorted),
        is_by_canon(all, other),
    ensures
        sorted == other,
{
    let p = choose|order: Seq<usize>| #[trigger] canonical_order(all, sorted, order);
    let q = choose|order: Seq<usize>| #[trigger] canonical_order(all, other, order);
    let lt = |x: int, y: int| more_canonical(all[x], all[y]);
    let before = |x: usize, y: usize| ranks(lt, x as int, y as int);
    assert forall|x: usize, y: usize| #[trigger] before(x, y) implies !before(y, x) by {
        lemma_canon_order(all[x as int], all[y as int], all[x as int]);
        lemma_canon_order(all[y as int], all[x as int], all[y as int]);
    }
    assert forall|x: usize| #[trigger] p.contains(x) <==> q.contains(x) by {
        if p.contains(x) {
            let k = choose|k: int| 0 <= k < p.len() && p[k] == x;
            assert(p[k] < all.len());
        }
        if q.contains(x) {
            let k = choose|k: int| 0 <= k < q.len() && q[k] == x;
            assert(q[k] < all.len());
        }
    }
    lemma_one_order(p, q, before);
    assert(sorted =~= other);
}

/// The canonical owner comes from the lowest subvolume, has the shortest path
/// there, and of those with as short a path comes first by name.
pub proof fn law_canonical_owner_is_first(all: Seq<OwnerView>, sorted: Seq<OwnerView>, k: int)
    requires
        all.len() <= usize::MAX,
        is_by_canon(all, sorted),
        0 <= k < all.len(),
    ensures
        sorted.len() > 0,
        !more_canonical(all[k], sorted[0]),
        exists|i: int| 0 <= i < all.len() && #[trigger] all[i] == sorted[0],
{
    let order = choose|order: Seq<usize>| #[trigger] canonical_order(all, sorted, order);
    let lt = |x: int, y: int| more_canonical(all[x], all[y]);
    let x = k as usize;
    assert(order.contains(x));
    let i = choose|i: int| 0 <= i < order.len() && order[i] == x;
    assert(order[0] < all.len());
    assert(all[order[0] as int] == sorted[0]);
    if i > 0 {
        assert(ranks(lt, order[0] as int, order[i] as int));
        lemma_canon_order(all[order[0] as int], all[k], all[k]);
    } else {
        lemma_canon_order(all[k], all[k], all[k]);
    }
}

/// The owner paths are those that the references bring, and the canonical one
/// is first.
pub proof fn law_owners_are_complete(
    refs: Seq<InodeRef>,
    found: Seq<RefPathsView>,
    sorted: Seq<OwnerView>,
    owners: Seq<Seq<char>>,
    subvols: Seq<Seq<char>>,
    canonical: Option<usize>,
    path: Seq<char>,
)
    requires
        all_owners(refs, found, refs.len()).len() <= usize::MAX,
        attributed(refs, found, sorted, owners, subvols, canonical),
    ensures
        owners.len() > 0,
        owners[0] == sorted[0].path,
        owners.contains(path) <==> owner_paths(all_owners(refs, found, refs.len())).contains(path),
{
    let all = all_owners(refs, found, refs.len());
    let order = choose|order: Seq<usize>| #[trigger] canonical_order(all, sorted, order);
    let paths = owner_paths(sorted);
    lemma_unrepeated(paths);
    assert(paths[0] == sorted[0].path);
    assert(owners.contains(path) <==> paths.contains(path));
    if paths.contains(path) {
        let k = choose|k: int| 0 <= k < paths.len() && paths[k] == path;
        assert(sorted[k] == all[order[k] as int]);
        assert(order[k] < all.len());
        assert(owner_paths(all)[order[k] as int] == path);
    }
    if owner_paths(all).contains(path) {
        let k = choose|k: int| 0 <= k < all.len() && owner_paths(all)[k] == path;
        let x = k as usize;
        assert(order.contains(x));
        let i = choose|i: int| 0 <= i < order.len() && order[i] == x;
        assert(sorted[i] == all[order[i] as int]);
        assert(paths[i] == path);
    }
}

/// The owners stand by subvolume, the lowest first; those of one subvolume by the
/// bytes of their paths, the shortest first; those with as short a path by name.
/// None is lost, and none is added.
pub proof fn law_owners_stand_in_order(
    all: Seq<OwnerView>,
    sorted: Seq<OwnerView>,
    j: int,
    k: int,
)
    requires
        all.len() <= usize::MAX,
        is_by_canon(all, sorted),
        0 <= j < k < sorted.len(),
    ensures
        sorted.len() == all.len(),
        all.contains(sorted[j]),
        all.contains(sorted[k]),
        sorted[j].root <= sorted[k].root,
        sorted[j].root == sorted[k].root ==> byte_len(sorted[j].path) <= byte_len(sorted[k].path),
        sorted[j].root == sorted[k].root && byte_len(sorted[j].path) == byte_len(sorted[k].path)
            ==> !name_less(sorted[k].path, sorted[j].path),
{
    let order = choose|order: Seq<usize>| #[trigger] canonical_order(all, sorted, order);
    let lt = |x: int, y: int| more_canonical(all[x], all[y]);
    assert(ranks(lt, order[j] as int, order[k] as int));
    assert(sorted[j] == all[order[j] as int]);
    assert(sorted[k] == all[order[k] as int]);
    lemma_canon_order(sorted[j], sorted[k], sorted[j]);
    lemma_canon_order(sorted[k], sorted[j], sorted[k]);
    lemma_name_order(sorted[j].path, sorted[k].path, sorted[j].path);
    assert(order[j] < all.len() && order[k] < all.len());
}

/// Where a file owns the byte, the canonical owner is a file of the lowest
/// subvolume among the references that lead to one, and no path of that subvolume is
/// shorter, in bytes, than the canonical one; one as short does not come before it by
/// name, and of references to the same file the first counts.
pub proof fn law_canonical_owner_has_the_shortest_path(
    refs: Seq<InodeRef>,
    found: Seq<RefPathsView>,
    sorted: Seq<OwnerView>,
    owners: Seq<Seq<char>>,
    subvols: Seq<Seq<char>>,
    canonical: Option<usize>,
    i: int,
    k: int,
)
    requires
        all_owners(refs, found, refs.len()).len() <= usize::MAX,
        attributed(refs, found, sorted, owners, subvols, canonical),
        0 <= i < refs.len(),
        found[i] is Paths,
        0 <= k < found[i]->Paths_1.len(),
        refs[i].root < u64::MAX,
    ensures
        canonical is Some,
        ({
            let c = canonical->0 as int;
            let other = joined_path(found[i]->Paths_0, found[i]->Paths_1[k]);
            &&& 0 <= c < refs.len()
            &&& found[c] is Paths
            &&& exists|n: int|
                0 <= n < found[c]->Paths_1.len() && owners[0] == joined_path(
                    found[c]->Paths_0,
                    #[trigger] found[c]->Paths_1[n],
                )
            &&& refs[c].root <= refs[i].root
            &&& refs[c].root == refs[i].root ==> byte_len(owners[0]) <= byte_len(other)
            &&& refs[c].root == refs[i].root && byte_len(owners[0]) == byte_len(other)
                ==> !name_less(other, owners[0])
            &&& refs[c].root == refs[i].root && owners[0] == other ==> c <= i
        }),
{
    let all = all_owners(refs, found, refs.len());
    let x = OwnerView {
        root: refs[i].root,
        path: joined_path(found[i]->Paths_0, found[i]->Paths_1[k]),
        index: Some(i),
    };
    lemma_owner_is_there(refs, found, refs.len(), i, k);
    let at = choose|at: int| 0 <= at < all.len() && all[at] == x;
    law_owners_are_complete(refs, found, sorted, owners, subvols, canonical, owners[0]);
    law_canonical_owner_is_first(all, sorted, at);
    let from = choose|n: int| 0 <= n < all.len() && #[trigger] all[n] == sorted[0];
    lemma_owner_comes_from(refs, found, refs.len(), from);
    lemma_name_order(x.path, sorted[0].path, x.path);
    if x.root == sorted[0].root && x.path == sorted[0].path {
        let order = choose|order: Seq<usize>| #[trigger] canonical_order(all, sorted, order);
        let lt = |x: int, y: int| more_canonical(all[x], all[y]);
        let y = at as usize;
        assert(order.contains(y));
        let p = choose|p: int| 0 <= p < order.len() && order[p] == y;
        assert(sorted[0] == all[order[0] as int]);
        assert(order[0] < all.len());
        if p > 0 {
            assert(ranks(lt, order[0] as int, order[p] as int));
            lemma_owner_indices(refs, found, refs.len(), order[0] as int, at);
        }
    }
}

/// The owners come in the order of the references that bring them.
proof fn lemma_owner_indices(
    refs: Seq<InodeRef>,
    found: Seq<RefPathsView>,
    n: nat,
    p: int,
    q: int,
)
    requires
        n <= refs.len(),
        0 <= p <= q < all_owners(refs, found, n).len(),
        all_owners(refs, found, n)[p].index is Some,
        all_owners(refs, found, n)[q].index is Some,
    ensures
        all_owners(refs, found, n)[p].index->0 <= all_owners(refs, found, n)[q].index->0 < n,
    decreases n,
{
    if n > 0 {
        let before = all_owners(refs, found, (n - 1) as nat);
        let all = all_owners(refs, found, n);
        lemma_indices(refs, found, (n - 1) as nat);
        if q < before.len() {
            assert(all[p] == before[p] && all[q] == before[q]);
            lemma_owner_indices(refs, found, (n - 1) as nat, p, q);
        } else if p < before.len() {
            assert(all[p] == before[p]);
        }
    }
}

/// Each path of a reference is among the owners.
proof fn lemma_owner_is_there(
    refs: Seq<InodeRef>,
    found: Seq<RefPathsView>,
    n: nat,
    i: int,
    k: int,
)
    requires
        0 <= i < n <= refs.len(),
        found[i] is Paths,
        0 <= k < found[i]->Paths_1.len(),
    ensures
        all_owners(refs, found, n).contains(
            OwnerView {
                root: refs[i].root,
                path: joined_path(found[i]->Paths_0, found[i]->Paths_1[k]),
                index: Some(i),
            },
        ),
    decreases n,
{
    let before = all_owners(refs, found, (n - 1) as nat);
    let all = all_owners(refs, found, n);
    if i < n - 1 {
        lemma_owner_is_there(refs, found, (n - 1) as nat, i, k);
        let x = OwnerView {
            root: refs[i].root,
            path: joined_path(found[i]->Paths_0, found[i]->Paths_1[k]),
            index: Some(i),
        };
        let at = choose|at: int| 0 <= at < before.len() && before[at] == x;
        assert(all[at] == x);
    } else {
        let new = owners_of_ref(refs[i], i, found[i]);
        assert(all[before.len() + k] == new[k]);
    }
}

/// An owner is one of a reference's paths in the reference's subvolume, or stands
/// for no file.
proof fn lemma_owner_comes_from(refs: Seq<InodeRef>, found: Seq<RefPathsView>, n: nat, at: int)
    requires
        n <= refs.len(),
        0 <= at < all_owners(refs, found, n).len(),
    ensures
        ({
            let o = all_owners(refs, found, n)[at];
            match o.index {
                None => o.root == u64::MAX,
                Some(i) => {
                    &&& 0 <= i < n
                    &&& o.root == refs[i].root
                    &&& found[i] is Paths
                    &&& exists|k: int|
                        0 <= k < found[i]->Paths_1.len() && o.path == joined_path(
                            found[i]->Paths_0,
                            #[trigger] found[i]->Paths_1[k],
                        )
                },
            }
        }),
    decreases n,
{
    if n > 0 {
        let before = all_owners(refs, found, (n - 1) as nat);
        if at < before.len() {
            lemma_owner_comes_from(refs, found, (n - 1) as nat, at);
            assert(all_owners(refs, found, n)[at] == before[at]);
        } else {
            let new = owners_of_ref(refs[n - 1], n - 1, found[n - 1]);
            let o = new[at - before.len()];
            assert(all_owners(refs, found, n)[at] == o);
            if found[n - 1] is Paths && found[n - 1]->Paths_1.len() > 0 {
                let k = at - before.len();
                assert(o.path == joined_path(found[n - 1]->Paths_0, found[n - 1]->Paths_1[k]));
            }
        }
    }
}

/// No owner stands next to itself, each stands where the first like it did, and the
/// subvolumes are those that lead to a file, but for the top level, each once and by
/// name.
pub proof fn law_owners_and_subvolumes_are_listed_once(
    refs: Seq<InodeRef>,
    found: Seq<RefPathsView>,
    sorted: Seq<OwnerView>,
    owners: Seq<Seq<char>>,
    subvols: Seq<Seq<char>>,
    canonical: Option<usize>,
)
    requires
        attributed(refs, found, sorted, owners, subvols, canonical),
    ensures
        owners.len() <= sorted.len(),
        forall|j: int| 0 <= j < owners.len() - 1 ==> #[trigger] owners[j] != owners[j + 1],
        forall|s: Seq<char>| #[trigger]
            subvols.contains(s) <==> s.len() > 0 && exists|i: int|
                0 <= i < refs.len() && #[trigger] found[i] is Paths && found[i]->Paths_0 == s
                    && found[i]->Paths_1.len() > 0,
        forall|j: int, k: int|
            0 <= j < k < subvols.len() ==> name_less(#[trigger] subvols[j], #[trigger] subvols[k]),
{
    lemma_unrepeated_apart(owner_paths(sorted));
    assert forall|s: Seq<char>| #[trigger]
        subvols.contains(s) <==> s.len() > 0 && exists|i: int|
            0 <= i < refs.len() && #[trigger] found[i] is Paths && found[i]->Paths_0 == s
                && found[i]->Paths_1.len() > 0 by {
        lemma_shown_subvols(found, refs.len(), s);
    }
    let lt = |x: Seq<char>, y: Seq<char>| name_less(x, y);
    assert forall|j: int, k: int| 0 <= j < k < subvols.len() implies name_less(
        #[trigger] subvols[j],
        #[trigger] subvols[k],
    ) by {
        assert(lt(subvols[j], subvols[k]));
    }
}

proof fn lemma_unrepeated_apart(s: Seq<Seq<char>>)
    ensures
        unrepeated(s).len() <= s.len(),
        forall|j: int|
            0 <= j < unrepeated(s).len() - 1 ==> #[trigger] unrepeated(s)[j] != unrepeated(s)[j
                + 1],
    decreases s.len(),
{
    if s.len() > 1 {
        lemma_unrepeated_apart(s.drop_last());
        lemma_unrepeated(s.drop_last());
        let u = unrepeated(s.drop_last());
        let r = unrepeated(s);
        assert forall|j: int| 0 <= j < r.len() - 1 implies #[trigger] r[j] != r[j + 1] by {
            if r != u && j == u.len() - 1 {
                assert(r[j] == u.last());
            } else {
                assert(r[j] == u[j] && r[j + 1] == u[j + 1]);
            }
        }
    }
}

/// Only a path that stands right behind the same one is left out: lists of paths can be
/// put together before or after that, but for one that ends as the next one starts.
pub proof fn law_only_neighbours_are_merged(s: Seq<Seq<char>>, t: Seq<Seq<char>>, x: Seq<char>)
    requires
        s.len() > 0,
        t.len() > 0,
    ensures
        unrepeated(seq![x]) == seq![x],
        s.last() != t.first() ==> unrepeated(s + t) == unrepeated(s) + unrepeated(t),
        s.last() == t.first() ==> unrepeated(s + t) == unrepeated(s) + unrepeated(t).drop_first(),
    decreases t.len(),
{
    let whole = s + t;
    lemma_unrepeated(t);
    if t.len() == 1 {
        assert(whole.drop_last() =~= s);
        assert(whole[whole.len() - 2] == s.last());
        assert(t =~= seq![t[0]]);
        assert(unrepeated(s).push(t[0]) =~= unrepeated(s) + t);
        assert(unrepeated(s) + t.drop_first() =~= unrepeated(s));
    } else {
        let front = t.drop_last();
        law_only_neighbours_are_merged(s, front, x);
        lemma_unrepeated(front);
        assert(whole.drop_last() =~= s + front);
        assert(whole[whole.len() - 2] == t[t.len() - 2]);
        let (u, v) = (unrepeated(s), unrepeated(front));
        assert((u + v).push(t.last()) =~= u + v.push(t.last()));
        assert((u + v.drop_first()).push(t.last()) =~= u + v.push(t.last()).drop_first());
    }
}

proof fn lemma_shown_subvols(found: Seq<RefPathsView>, n: nat, s: Seq<char>)
    ensures
        all_subvols(found, n).contains(s) <==> s.len() > 0 && exists|i: int|
            0 <= i < n && #[trigger] found[i] is Paths && found[i]->Paths_0 == s
                && found[i]->Paths_1.len() > 0,
    decreases n,
{
    if n > 0 {
        lemma_shown_subvols(found, (n - 1) as nat, s);
        let before = all_subvols(found, (n - 1) as nat);
        let after = all_subvols(found, n);
        if before.contains(s) {
            let k = choose|k: int| 0 <= k < before.len() && before[k] == s;
            assert(after[k] == s);
            let i = choose|i: int|
                0 <= i < n - 1 && #[trigger] found[i] is Paths && found[i]->Paths_0 == s
                    && found[i]->Paths_1.len() > 0;
            assert(found[i] is Paths);
        }
        if after != before {
            assert(after[before.len() as int] == found[n - 1]->Paths_0);
            assert(found[n - 1] is Paths);
        }
        if after.contains(s) && !before.contains(s) {
            let k = choose|k: int| 0 <= k < after.len() && after[k] == s;
            if k < before.len() {
                assert(before[k] == s);
            }
        }
    }
}

/// A reference that leads to no file still leaves an owner, in an entry that names
/// what is the matter: one of its own for each subvolume that cannot be reached, one
/// for all that is unlinked, and one for each error.
pub proof fn law_references_without_a_path_leave_an_owner(
    r: InodeRef,
    other: InodeRef,
    i: int,
    subvol: Seq<char>,
    name: Seq<char>,
)
    ensures
        ({
            let lost = owners_of_ref(r, i, RefPathsView::NoSubvol);
            let unlinked = owners_of_ref(r, i, RefPathsView::Paths(subvol, Seq::empty()));
            let failed = owners_of_ref(r, i, RefPathsView::Failed(name));
            let same = owners_of_ref(other, i, RefPathsView::NoSubvol);
            &&& lost.len() == unlinked.len() == failed.len() == 1
            &&& lost[0].path == "<UNREACHABLE>/subvol "@ + decimal(r.root as nat)
            &&& unlinked[0].path == "<UNREACHABLE>/unlinked"@
            &&& failed[0].path == "<ERROR>/"@ + name
            &&& lost[0].index is None && unlinked[0].index is None && failed[0].index is None
            &&& lost[0].root == unlinked[0].root == failed[0].root == u64::MAX
            &&& r.root == other.root ==> lost == same
            &&& unlinked == owners_of_ref(other, i + 1, RefPathsView::Paths(name, Seq::empty()))
        }),
{
}

// ---- compression ----

/// How far before a byte of a file its compressed extent may start.
pub const MAX_COMPRESSED: u64 = 131072;

/// The file offsets at which an extent that holds `file_offset` can start and
/// be compressed.
pub fn ratio_window(file_offset: u64) -> (r: (u64, u64))
    ensures
        r.0 == (if file_offset >= 131072 {
            file_offset - 131072
        } else {
            0
        }),
        r.1 == file_offset,
{
    (file_offset.saturating_sub(MAX_COMPRESSED), file_offset)
}

/// Whether an extent holds the byte at a logical address.
pub open spec fn covers(fe: FileExtent, logical: u64) -> bool {
    fe.disk_bytenr != 0 && fe.disk_bytenr <= logical < fe.disk_bytenr + fe.disk_num_bytes
}

/// The last of the extents that holds the byte.
pub open spec fn last_covering(extents: Seq<FileExtent>, logical: u64) -> Option<FileExtent>
    decreases extents.len(),
{
    if extents.len() == 0 {
        None
    } else if covers(extents.last(), logical) {
        Some(extents.last())
    } else {
        last_covering(extents.drop_last(), logical)
    }
}

/// Uncompressed and on-disk size where the byte lies in `fe`; where it lies in
/// none, or in one that is not compressed, the two are the same.
pub open spec fn extent_ratio(fe: Option<FileExtent>) -> Ratio {
    match fe {
        Some(e) => if e.compression != 0 && e.disk_num_bytes > 0 {
            Ratio { ram: e.ram_bytes, disk: e.disk_num_bytes }
        } else {
            Ratio { ram: 1, disk: 1 }
        },
        None => Ratio { ram: 1, disk: 1 },
    }
}

/// Uncompressed and on-disk size of the extent that holds the byte, from the
/// extents that start in its window.
pub fn ratio(extents: &Vec<FileExtent>, logical: u64) -> (r: Ratio)
    ensures
        r == extent_ratio(last_covering(extents@, logical)),
        r.disk > 0,
{
    let mut n: usize = extents.len();
    assert(extents@.take(n as int) =~= extents@);
    while n > 0
        invariant
            n <= extents@.len(),
            last_covering(extents@, logical) == last_covering(extents@.take(n as int), logical),
        decreases n,
    {
        let fe = extents[n - 1];
        assert(extents@.take(n as int).drop_last() =~= extents@.take(n - 1));
        if fe.disk_bytenr != 0 && fe.disk_bytenr <= logical && logical - fe.disk_bytenr
            < fe.disk_num_bytes {
            if fe.compression != 0 && fe.disk_num_bytes > 0 {
                return Ratio { ram: fe.ram_bytes, disk: fe.disk_num_bytes };
            }
            return Ratio { ram: 1, disk: 1 };
        }
        n -= 1;
    }
    Ratio { ram: 1, disk: 1 }
}

/// The ratio of a byte is that of the whole extent that holds it, the last one that
/// does: where the extent is compressed, its size before compression over its size
/// on disk; where it is not, or there is none, one. Where in the file the extent is
/// used, and how much of it, makes no difference.
pub proof fn law_ratio_is_of_the_whole_extent(
    extents: Seq<FileExtent>,
    others: Seq<FileExtent>,
    logical: u64,
    k: int,
)
    requires
        0 <= k < extents.len(),
        extents[k].disk_bytenr > 0,
        extents[k].disk_bytenr <= logical < extents[k].disk_bytenr + extents[k].disk_num_bytes,
        forall|j: int|
            k < j < extents.len() ==> (#[trigger] extents[j]).disk_bytenr == 0 || logical
                < extents[j].disk_bytenr || logical >= extents[j].disk_bytenr
                + extents[j].disk_num_bytes,
        others.len() == extents.len(),
        forall|j: int|
            0 <= j < extents.len() ==> (#[trigger] others[j]).disk_bytenr == extents[j].disk_bytenr
                && others[j].disk_num_bytes == extents[j].disk_num_bytes && others[j].ram_bytes
                == extents[j].ram_bytes && others[j].compression == extents[j].compression,
    ensures
        ({
            let r = extent_ratio(last_covering(extents, logical));
            &&& extents[k].compression != 0 ==> r.ram == extents[k].ram_bytes && r.disk
                == extents[k].disk_num_bytes
            &&& extents[k].compression == 0 ==> r.ram == r.disk && r.disk > 0
            &&& extent_ratio(last_covering(others, logical)) == r
        }),
{
    lemma_last_covering(extents, logical, k);
    assert(covers(others[k], logical));
    assert forall|j: int| k < j < others.len() implies !covers(#[trigger] others[j], logical) by {
        assert(!covers(extents[j], logical));
    }
    lemma_last_covering(others, logical, k);
}

proof fn lemma_last_covering(extents: Seq<FileExtent>, logical: u64, k: int)
    requires
        0 <= k < extents.len(),
        covers(extents[k], logical),
        forall|j: int| k < j < extents.len() ==> !covers(#[trigger] extents[j], logical),
    ensures
        last_covering(extents, logical) == Some(extents[k]),
    decreases extents.len(),
{
    if k < extents.len() - 1 {
        assert(!covers(extents[extents.len() - 1], logical));
        lemma_last_covering(extents.drop_last(), logical, k);
    }
}

/// A byte that no extent holds, or only holes do, counts at its size on disk.
pub proof fn law_no_extent_no_compression(extents: Seq<FileExtent>, logical: u64)
    requires
        forall|j: int|
            0 <= j < extents.len() ==> (#[trigger] extents[j]).disk_bytenr == 0 || logical
                < extents[j].disk_bytenr || logical >= extents[j].disk_bytenr
                + extents[j].disk_num_bytes,
    ensures
        ({
            let r = extent_ratio(last_covering(extents, logical));
            r.ram == r.disk && r.disk > 0
        }),
    decreases extents.len(),
{
    if extents.len() > 0 {
        assert(!covers(extents[extents.len() - 1], logical));
        law_no_extent_no_compression(extents.drop_last(), logical);
    }
}

/// The sample of a byte with these owners.
pub fn sample(o: Owners, ratio: Option<Ratio>) -> (r: Sample)
    ensures
        r.owners == o.owners,
        r.subvols == o.subvols,
        r.ratio == ratio,
{
    Sample { owners: o.owners, subvols: o.subvols, ratio }
}

} // verus!
