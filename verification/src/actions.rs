//! Filesystem-changing and expensive operations run off the UI thread.

use std::collections::HashSet;

use vstd::prelude::*;

use crate::btrfs::ops::FileExtent;

verus! {

/// Exact, compsize-style usage of a directory tree.
#[derive(Debug, Default, Clone, Copy)]
pub struct Exact {
    /// Unique on-disk bytes of all extents referenced.
    pub disk: u64,
    /// Uncompressed size of those unique extents.
    pub uncompressed: u64,
    /// Bytes of file data referenced (counting shared extents each time).
    pub referenced: u64,
    pub files: u64,
}

/// Whether an extent holds data: in the tree itself, or at a place on disk. The
/// others are holes.
pub open spec fn holds_data(e: FileExtent) -> bool {
    e.kind == 0 || e.disk_bytenr != 0
}

/// Whether two extents are the same place on disk.
pub open spec fn same_place(d: FileExtent, e: FileExtent) -> bool {
    d.kind != 0 && e.kind != 0 && d.disk_bytenr == e.disk_bytenr
}

/// Whether `list[i]` holds data and none before it is the same place on disk.
pub open spec fn is_unique(list: Seq<FileExtent>, i: int) -> bool {
    holds_data(list[i]) && forall|j: int| 0 <= j < i ==> !same_place(#[trigger] list[j], list[i])
}

/// The bytes on disk of the unique extents.
pub open spec fn disk_of(list: Seq<FileExtent>) -> nat
    decreases list.len(),
{
    if list.len() == 0 {
        0
    } else {
        disk_of(list.drop_last()) + if is_unique(list, list.len() - 1) {
            list.last().disk_num_bytes as nat
        } else {
            0
        }
    }
}

/// The uncompressed bytes of the unique extents.
pub open spec fn uncompressed_of(list: Seq<FileExtent>) -> nat
    decreases list.len(),
{
    if list.len() == 0 {
        0
    } else {
        uncompressed_of(list.drop_last()) + if is_unique(list, list.len() - 1) {
            list.last().ram_bytes as nat
        } else {
            0
        }
    }
}

/// The bytes of file data that the extents are referenced for.
pub open spec fn referenced_of(list: Seq<FileExtent>) -> nat
    decreases list.len(),
{
    if list.len() == 0 {
        0
    } else {
        referenced_of(list.drop_last()) + if holds_data(list.last()) {
            list.last().num_bytes as nat
        } else {
            0
        }
    }
}

/// The largest 64-bit number that is at most `n`.
pub open spec fn capped(n: nat) -> u64 {
    if n <= u64::MAX {
        n as u64
    } else {
        u64::MAX
    }
}

/// The usage of files with the given extents.
pub open spec fn usage(files: Seq<Seq<FileExtent>>) -> Exact {
    let list = files.flatten();
    Exact {
        disk: capped(disk_of(list)),
        uncompressed: capped(uncompressed_of(list)),
        referenced: capped(referenced_of(list)),
        files: capped(files.len()),
    }
}

/// The places on disk of extents.
spec fn places(list: Seq<FileExtent>) -> Set<u64> {
    Set::new(
        |p: u64|
            exists|j: int|
                0 <= j < list.len() && (#[trigger] list[j]).kind != 0 && list[j].disk_bytenr == p,
    )
}

/// The files of a directory tree, as far as they have been seen.
pub struct Survey {
    seen: HashSet<u64>,
    exact: Exact,
    files: Ghost<Seq<Seq<FileExtent>>>,
}

impl View for Survey {
    type V = Seq<Seq<FileExtent>>;

    closed spec fn view(&self) -> Seq<Seq<FileExtent>> {
        self.files@
    }
}

impl Survey {
    #[verifier::type_invariant]
    spec fn well_formed(self) -> bool {
        &&& self.seen@ == places(self.files@.flatten())
        &&& self.exact == usage(self.files@)
    }

    pub fn new() -> (r: Self)
        ensures
            r@ == Seq::<Seq<FileExtent>>::empty(),
    {
        broadcast use vstd::std_specs::hash::group_hash_axioms;

        let seen: HashSet<u64> = HashSet::new();
        proof {
            let none = Seq::<Seq<FileExtent>>::empty();
            assert(none.flatten() =~= Seq::<FileExtent>::empty());
            assert(seen@ =~= places(none.flatten()));
        }
        Survey {
            seen,
            exact: Exact { disk: 0, uncompressed: 0, referenced: 0, files: 0 },
            files: Ghost(Seq::empty()),
        }
    }

    /// The usage of the files seen.
    pub fn exact(&self) -> (r: Exact)
        ensures
            r == usage(self@),
    {
        proof {
            use_type_invariant(self);
        }
        self.exact
    }

    /// Adds a file with the given extents.
    pub fn add_file(&mut self, extents: &Vec<FileExtent>)
        ensures
            final(self)@ == old(self)@.push(extents@),
    {
        broadcast use vstd::std_specs::hash::group_hash_axioms;

        proof {
            use_type_invariant(&*self);
        }
        let mut was: Survey = Survey::new();
        std::mem::swap(&mut was, self);
        let ghost files = was.files@;
        let ghost before = files.flatten();
        let mut seen: HashSet<u64> = was.seen;
        let mut e: Exact = was.exact;
        let mut i: usize = 0;
        proof {
            assert(before + extents@.take(0) =~= before);
        }
        while i < extents.len()
            invariant
                i <= extents@.len(),
                seen@ == places(before + extents@.take(i as int)),
                e.disk == capped(disk_of(before + extents@.take(i as int))),
                e.uncompressed == capped(uncompressed_of(before + extents@.take(i as int))),
                e.referenced == capped(referenced_of(before + extents@.take(i as int))),
                e.files == capped(files.len()),
            decreases extents@.len() - i,
        {
            let x: FileExtent = extents[i];
            let ghost list = before + extents@.take(i as int);
            let ghost more = before + extents@.take(i + 1);
            proof {
                assert(more =~= list.push(x));
                assert(more.drop_last() =~= list);
                lemma_unique(list, x);
            }
            let known: bool = seen.contains(&x.disk_bytenr);
            if x.kind == 0 || (x.disk_bytenr != 0 && !known) {
                e.disk = e.disk.saturating_add(x.disk_num_bytes);
                e.uncompressed = e.uncompressed.saturating_add(x.ram_bytes);
            }
            if x.kind == 0 || x.disk_bytenr != 0 {
                e.referenced = e.referenced.saturating_add(x.num_bytes);
            }
            if x.kind != 0 {
                seen.insert(x.disk_bytenr);
            }
            proof {
                lemma_places(list, x);
            }
            i += 1;
        }
        e.files = e.files.saturating_add(1);
        proof {
            assert(extents@.take(extents@.len() as int) =~= extents@);
            files.lemma_flatten_push(extents@);
        }
        *self = Survey { seen, exact: e, files: Ghost(files.push(extents@)) };
    }
}

proof fn lemma_unique(list: Seq<FileExtent>, x: FileExtent)
    ensures
        is_unique(list.push(x), list.len() as int) == (x.kind == 0 || (x.disk_bytenr != 0
            && !places(list).contains(x.disk_bytenr))),
{
    let more = list.push(x);
    assert forall|j: int| 0 <= j < list.len() implies more[j] == #[trigger] list[j] by {}
    if x.kind != 0 && places(list).contains(x.disk_bytenr) {
        let j = choose|j: int|
            0 <= j < list.len() && (#[trigger] list[j]).kind != 0 && list[j].disk_bytenr
                == x.disk_bytenr;
        assert(same_place(more[j], more[list.len() as int]));
    }
}

proof fn lemma_places(list: Seq<FileExtent>, x: FileExtent)
    ensures
        places(list.push(x)) == (if x.kind != 0 {
            places(list).insert(x.disk_bytenr)
        } else {
            places(list)
        }),
{
    let more = list.push(x);
    let n = list.len() as int;
    let expected = if x.kind != 0 {
        places(list).insert(x.disk_bytenr)
    } else {
        places(list)
    };
    assert forall|p: u64| places(more).contains(p) == #[trigger] expected.contains(p) by {
        assert(more[n] == x);
        if places(list).contains(p) {
            let j = choose|j: int|
                0 <= j < list.len() && (#[trigger] list[j]).kind != 0 && list[j].disk_bytenr == p;
            assert(more[j] == list[j]);
        }
        if places(more).contains(p) {
            let j = choose|j: int|
                0 <= j < more.len() && (#[trigger] more[j]).kind != 0 && more[j].disk_bytenr == p;
            if j < n {
                assert(list[j] == more[j]);
            }
        }
    }
    assert(places(more) =~= expected);
}

// ---- shared extents ----

/// Whether an extent of `list` is the same place on disk as `e`.
pub open spec fn occurs(list: Seq<FileExtent>, e: FileExtent) -> bool {
    exists|j: int| 0 <= j < list.len() && same_place(#[trigger] list[j], e)
}

/// Extents that were seen before take up no more space: a file made of them
/// alone adds to the bytes referenced and to nothing else.
pub proof fn law_shared_extents_count_once(files: Seq<Seq<FileExtent>>, file: Seq<FileExtent>)
    requires
        forall|i: int| 0 <= i < file.len() ==> occurs(files.flatten(), #[trigger] file[i]),
    ensures
        usage(files.push(file)).disk == usage(files).disk,
        usage(files.push(file)).uncompressed == usage(files).uncompressed,
        usage(files.push(file)).referenced == capped(
            referenced_of(files.flatten()) + referenced_of(file),
        ),
{
    let list = files.flatten();
    files.lemma_flatten_push(file);
    lemma_seen_again(list, file);
}

proof fn lemma_seen_again(list: Seq<FileExtent>, file: Seq<FileExtent>)
    requires
        forall|i: int| 0 <= i < file.len() ==> occurs(list, #[trigger] file[i]),
    ensures
        disk_of(list + file) == disk_of(list),
        uncompressed_of(list + file) == uncompressed_of(list),
        referenced_of(list + file) == referenced_of(list) + referenced_of(file),
    decreases file.len(),
{
    if file.len() == 0 {
        assert(list + file =~= list);
    } else {
        let rest = file.drop_last();
        let all = list + file;
        let last = file.len() - 1;
        assert(all.drop_last() =~= list + rest);
        assert forall|i: int| 0 <= i < rest.len() implies occurs(list, #[trigger] rest[i]) by {
            assert(rest[i] == file[i]);
        }
        lemma_seen_again(list, rest);
        assert(file[last] == all.last());
        let j = choose|j: int| 0 <= j < list.len() && same_place(#[trigger] list[j], file[last]);
        assert(all[j] == list[j]);
        assert(!is_unique(all, all.len() - 1));
    }
}

/// What a file with one more extent adds. A hole adds nothing. Data adds what the file
/// refers to of it; and if it is stored in the tree itself, or at a place on disk where
/// no extent was before, also its size on disk and its size before compression, those
/// of the whole extent. Each file counts as one.
pub proof fn law_extents_add_their_sizes(files: Seq<Seq<FileExtent>>, e: FileExtent)
    requires
        usage(files).disk + e.disk_num_bytes < u64::MAX,
        usage(files).uncompressed + e.ram_bytes < u64::MAX,
        usage(files).referenced + e.num_bytes < u64::MAX,
        usage(files).files < u64::MAX - 1,
    ensures
        ({
            let was = usage(files);
            let now = usage(files.push(seq![e]));
            let list = files.flatten();
            let seen = exists|j: int|
                0 <= j < list.len() && (#[trigger] list[j]).kind != 0 && list[j].disk_bytenr
                    == e.disk_bytenr;
            &&& e.kind != 0 && e.disk_bytenr == 0 ==> now.disk == was.disk && now.uncompressed
                == was.uncompressed && now.referenced == was.referenced
            &&& e.kind == 0 || e.disk_bytenr != 0 && !seen ==> now.disk == was.disk
                + e.disk_num_bytes && now.uncompressed == was.uncompressed + e.ram_bytes
                && now.referenced == was.referenced + e.num_bytes
            &&& e.kind != 0 && e.disk_bytenr != 0 && seen ==> now.disk == was.disk
                && now.uncompressed == was.uncompressed && now.referenced == was.referenced
                + e.num_bytes
            &&& now.files == was.files + 1
        }),
        usage(Seq::empty()) == (Exact { disk: 0, uncompressed: 0, referenced: 0, files: 0 }),
{
    let list = files.flatten();
    let more = list + seq![e];
    files.lemma_flatten_push(seq![e]);
    assert(more =~= list.push(e));
    assert(more.drop_last() =~= list);
    lemma_unique(list, e);
    assert(Seq::<Seq<FileExtent>>::empty().flatten() =~= Seq::<FileExtent>::empty());
}

/// The extents of a file count one by one, in their order, as if each were a file's of
/// its own.
pub proof fn law_extents_count_one_by_one(files: Seq<Seq<FileExtent>>, file: Seq<FileExtent>)
    requires
        file.len() > 0,
    ensures
        ({
            let whole = usage(files.push(file));
            let parts = usage(files.push(file.drop_last()).push(seq![file.last()]));
            &&& whole.disk == parts.disk
            &&& whole.uncompressed == parts.uncompressed
            &&& whole.referenced == parts.referenced
        }),
{
    let some = files.push(file.drop_last());
    files.lemma_flatten_push(file);
    files.lemma_flatten_push(file.drop_last());
    some.lemma_flatten_push(seq![file.last()]);
    assert(files.flatten() + file =~= files.flatten() + file.drop_last() + seq![file.last()]);
}

} // verus!
