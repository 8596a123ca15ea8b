//! Resolving one byte, step by step: what to find out next, and what the
//! answers come to.

use vstd::prelude::*;

use crate::btrfs::ops::{extent_key, FileExtent, InodeRef};
use crate::btrfs::search::SearchKey;
use crate::sampler::owners::{
    attribute, attributed, bucket_of_chunk, chunk_bucket, extent_ratio, is_bucket, last_covering,
    lookups, ratio, ratio_window, sample, OwnerView, Owners, RefPaths,
};
use crate::text::{copied, texts};
use crate::tree::{Ratio, Sample};

verus! {

/// What to find out next.
pub enum Step {
    /// The references that cover the byte.
    Refs,
    /// The paths of this reference.
    Paths(InodeRef),
    /// The extents of the canonical owner's file in this range.
    Extents(SearchKey),
    /// Nothing: this is the sample.
    Done(Sample),
}

/// A byte that is being resolved.
pub struct Resolution {
    /// The address of the byte.
    pub logical: u64,
    /// The references that cover it.
    pub refs: Vec<InodeRef>,
    /// What came of looking up the first of them.
    pub found: Vec<RefPaths>,
    /// The owners, once all are looked up.
    pub owners: Owners,
}

/// The range in which the extent of a reference is looked for.
pub open spec fn extent_range(r: InodeRef) -> SearchKey {
    SearchKey {
        tree_id: r.root,
        min_objectid: r.inum,
        max_objectid: r.inum,
        min_type: 108,
        max_type: 108,
        min_offset: if r.offset >= 131072 {
            (r.offset - 131072) as u64
        } else {
            0
        },
        max_offset: r.offset,
    }
}

/// Whether the owners are what the lookups come to.
pub open spec fn owners_known(r: Resolution) -> bool {
    &&& r.found@.len() == r.refs@.len()
    &&& r.refs@.len() > 0
    &&& exists|sorted: Seq<OwnerView>| #[trigger]
        attributed(
            r.refs@,
            lookups(r.found@),
            sorted,
            texts(r.owners.owners@),
            texts(r.owners.subvols@),
            r.owners.canonical,
        )
}

/// Whether `s` has the owners.
pub open spec fn has_owners(r: Resolution, s: Sample) -> bool {
    &&& texts(s.owners@) == texts(r.owners.owners@)
    &&& texts(s.subvols@) == texts(r.owners.subvols@)
}

/// Whether `step` comes next after a lookup: the next reference, and after the
/// last one the extents of the canonical owner's file, or the sample if the
/// canonical owner is no file.
pub open spec fn follows(r: Resolution, step: Step) -> bool {
    let n = r.found@.len();
    match step {
        Step::Paths(x) => n < r.refs@.len() && x == r.refs@[n as int],
        Step::Extents(key) => n == r.refs@.len() && owners_known(r) && (
        r.owners.canonical matches Some(i) && i < r.refs@.len() && key == extent_range(
            r.refs@[i as int],
        )),
        Step::Done(s) => n == r.refs@.len() && owners_known(r) && r.owners.canonical is None
            && has_owners(r, s) && s.ratio is None,
        Step::Refs => false,
    }
}

impl Resolution {
    /// Starts with a byte at `logical`, in a chunk with these flags.
    pub fn begin(logical: u64, flags: u64) -> (r: (Self, Step))
        ensures
            r.0.logical == logical,
            r.0.refs@.len() == 0,
            r.0.found@.len() == 0,
            match r.1 {
                Step::Done(s) => chunk_bucket(flags) matches Some(name) && is_bucket(s, name),
                Step::Refs => chunk_bucket(flags) is None,
                _ => false,
            },
    {
        let none = Owners { owners: Vec::new(), subvols: Vec::new(), canonical: None };
        let start = Resolution { logical, refs: Vec::new(), found: Vec::new(), owners: none };
        match bucket_of_chunk(flags) {
            Some(s) => (start, Step::Done(s)),
            None => (start, Step::Refs),
        }
    }

    /// Takes the references that cover the byte.
    pub fn with_refs(&mut self, refs: Vec<InodeRef>) -> (r: Step)
        requires
            old(self).refs@.len() == 0,
            old(self).found@.len() == 0,
        ensures
            final(self).logical == old(self).logical,
            final(self).refs == refs,
            final(self).found == old(self).found,
            match r {
                Step::Paths(x) => refs@.len() > 0 && x == refs@[0],
                Step::Done(s) => refs@.len() == 0 && is_bucket(s, "<UNREACHABLE>"@),
                _ => false,
            },
    {
        self.refs = refs;
        if self.refs.len() == 0 {
            let o = attribute(&self.refs, &self.found);
            let s = sample(o, None);
            Step::Done(s)
        } else {
            Step::Paths(self.refs[0])
        }
    }

    /// Takes what came of looking up the paths of the reference asked about.
    pub fn with_paths(&mut self, found: RefPaths) -> (r: Step)
        requires
            old(self).found@.len() < old(self).refs@.len(),
        ensures
            final(self).logical == old(self).logical,
            final(self).refs == old(self).refs,
            final(self).found@ == old(self).found@.push(found),
            follows(*final(self), r),
    {
        self.found.push(found);
        let n = self.found.len();
        if n < self.refs.len() {
            return Step::Paths(self.refs[n]);
        }
        self.owners = attribute(&self.refs, &self.found);
        match self.owners.canonical {
            Some(i) => {
                let x = self.refs[i];
                let (lo, hi) = ratio_window(x.offset);
                Step::Extents(extent_key(x.root, x.inum, lo, hi))
            },
            None => Step::Done(self.finish(None)),
        }
    }

    /// Takes the extents of the canonical owner's file, if they could be had.
    pub fn with_extents(&self, extents: Option<Vec<FileExtent>>) -> (r: Sample)
        requires
            owners_known(*self),
        ensures
            has_owners(*self, r),
            r.ratio == (match extents {
                Some(e) => Some(extent_ratio(last_covering(e@, self.logical))),
                None => None,
            }),
            r.ratio matches Some(x) ==> x.disk > 0,
    {
        let found = match extents {
            Some(e) => Some(ratio(&e, self.logical)),
            None => None,
        };
        self.finish(found)
    }

    fn finish(&self, ratio: Option<Ratio>) -> (r: Sample)
        ensures
            has_owners(*self, r),
            r.ratio == ratio,
    {
        sample(
            Owners {
                owners: copied(&self.owners.owners),
                subvols: copied(&self.owners.subvols),
                canonical: self.owners.canonical,
            },
            ratio,
        )
    }
}

/// An extent of at most 128 KiB that holds the byte at the reference's place in its
/// file is looked for: the range is of that file in that subvolume, of extents, and
/// holds every place where such an extent can start, but none behind the byte.
pub proof fn law_extent_is_looked_for_where_it_can_start(r: InodeRef, start: u64, size: u64)
    requires
        start <= r.offset < start + size,
    ensures
        ({
            let key = extent_range(r);
            &&& key.tree_id == r.root
            &&& key.min_objectid == r.inum && key.max_objectid == r.inum
            &&& key.min_type == 108 && key.max_type == 108
            &&& size <= 128 * 1024 ==> key.min_offset <= start <= key.max_offset
            &&& key.max_offset == r.offset
            &&& key.min_offset <= key.max_offset <= key.min_offset + 128 * 1024
        }),
{
}

/// The references are looked up one after the other, each once. After the last one
/// the extents of the canonical owner's file are asked for, and where the canonical
/// owner is no file the sample is done: with all owners and of unknown compression.
pub proof fn law_every_reference_is_looked_up(r: Resolution, step: Step)
    requires
        follows(r, step),
        r.found@.len() <= r.refs@.len(),
    ensures
        r.found@.len() < r.refs@.len() ==> step == Step::Paths(r.refs@[r.found@.len() as int]),
        r.found@.len() == r.refs@.len() && r.owners.canonical is Some ==> {
            let x = r.refs@[r.owners.canonical->0 as int];
            &&& step is Extents
            &&& step->Extents_0.tree_id == x.root
            &&& step->Extents_0.min_objectid == x.inum && step->Extents_0.max_objectid == x.inum
            &&& step->Extents_0.max_offset == x.offset
        },
        r.found@.len() == r.refs@.len() && r.owners.canonical is None ==> {
            &&& step is Done
            &&& texts(step->Done_0.owners@) == texts(r.owners.owners@)
            &&& texts(step->Done_0.subvols@) == texts(r.owners.subvols@)
            &&& step->Done_0.ratio is None
        },
        step !is Refs,
{
}

} // verus!
