//! Random sampling of logical space and resolution into owner paths.

pub mod owners;
pub mod resolve;

use std::collections::HashMap;

use vstd::prelude::*;

use crate::btrfs::ops::{Chunk, FS_TREE_OBJECTID};
use crate::rng::{scaled, scrambled, stepped, Rng};
use crate::sorting::{in_order, is_ranking, lemma_one_order, ranks, sort_positions};
use crate::text::{
    components, concat, law_names_of_paths_add_up, law_trimming_takes_the_ends_off,
    lemma_texts_push, owned, texts, trim_text, trimmed,
};

verus! {

// ---- picking a byte ----

/// The allocated chunks, one after the other.
pub struct ChunkMap {
    /// In the order of their starts.
    pub chunks: Vec<Chunk>,
    /// Where each of them ends, in the count of all bytes.
    pub ends: Vec<u64>,
    /// How many bytes they have together.
    pub total: u64,
}

/// How many bytes the chunks have together.
pub open spec fn total_len(chunks: Seq<Chunk>) -> nat
    decreases chunks.len(),
{
    if chunks.len() == 0 {
        0
    } else {
        total_len(chunks.drop_last()) + chunks.last().len as nat
    }
}

/// Where byte `r` of the chunks, one after the other, lies: the chunk and the
/// offset in it.
pub open spec fn located(chunks: Seq<Chunk>, r: nat) -> (int, nat)
    decreases chunks.len(),
{
    if chunks.len() == 0 {
        (0, r)
    } else {
        let before = total_len(chunks.drop_last());
        if r >= before {
            (chunks.len() - 1, (r - before) as nat)
        } else {
            located(chunks.drop_last(), r)
        }
    }
}

/// The logical address and flags of byte `r` of the chunks, one after the other.
pub open spec fn picked(chunks: Seq<Chunk>, r: nat) -> (int, u64) {
    let (i, off) = located(chunks, r);
    (chunks[i].start + off, chunks[i].flags)
}

/// Whether every byte of the chunks has an address.
pub open spec fn pickable(chunks: Seq<Chunk>) -> bool {
    forall|r: nat|
        r < total_len(chunks) ==> {
            let (i, off) = #[trigger] located(chunks, r);
            0 <= i < chunks.len() && chunks[i].start + off <= u64::MAX
        }
}

/// Whether `sorted` is `chunks` in the order of their starts, those with the
/// same start in the order that they had.
pub open spec fn is_by_start(chunks: Seq<Chunk>, sorted: Seq<Chunk>) -> bool {
    exists|order: Seq<usize>| #[trigger] orders(chunks, sorted, order)
}

/// Whether `order` puts `chunks` in the order of their starts, giving `sorted`.
pub open spec fn orders(chunks: Seq<Chunk>, sorted: Seq<Chunk>, order: Seq<usize>) -> bool {
    &&& is_ranking(
        order,
        chunks.len() as int,
        |x: int, y: int| chunks[x].start < chunks[y].start,
    )
    &&& sorted.len() == order.len()
    &&& forall|k: int| 0 <= k < sorted.len() ==> #[trigger] sorted[k] == chunks[order[k] as int]
}

impl View for ChunkMap {
    type V = Seq<Chunk>;

    open spec fn view(&self) -> Seq<Chunk> {
        self.chunks@
    }
}

impl ChunkMap {
    /// Every chunk ends where the next one begins, in the count of all bytes.
    pub open spec fn wf(&self) -> bool {
        &&& self.ends@.len() == self.chunks@.len()
        &&& forall|i: int|
            0 <= i < self.ends@.len() ==> #[trigger] self.ends@[i] == total_len(
                self.chunks@.take(i + 1),
            )
        &&& self.total == total_len(self.chunks@)
    }

    pub fn new(chunks: Vec<Chunk>) -> (r: Self)
        requires
            total_len(chunks@) <= u64::MAX,
        ensures
            r.wf(),
            is_by_start(chunks@, r@),
            r.bytes() == total_len(r@) == total_len(chunks@),
            r.total == total_len(chunks@),
            are_addressable(chunks@) ==> pickable(r@),
    {
        let ghost lt = |x: int, y: int| chunks@[x].start < chunks@[y].start;
        let less = |x: usize, y: usize| -> (r: bool)
            requires
                x < chunks@.len(),
                y < chunks@.len(),
            ensures
                r == lt(x as int, y as int),
            { chunks[x].start < chunks[y].start };
        let order = sort_positions(chunks.len(), &less, Ghost(lt));
        let mut sorted: Vec<Chunk> = Vec::new();
        let mut ends: Vec<u64> = Vec::new();
        let mut total: u64 = 0;
        let mut i: usize = 0;
        let ghost goal = Seq::new(order@.len(), |k: int| chunks@[order@[k] as int]);
        proof {
            assert(order@.no_duplicates()) by {
                assert forall|j: int, k: int| 0 <= j < k < order@.len() implies #[trigger] order@[j]
                    != #[trigger] order@[k] by {
                    assert(ranks(lt, order@[j] as int, order@[k] as int));
                }
            }
            lemma_order_keeps_total(chunks@, goal, order@);
            assert(goal.take(0) =~= Seq::<Chunk>::empty());
        }
        while i < order.len()
            invariant
                i <= order@.len(),
                goal == Seq::new(order@.len(), |k: int| chunks@[order@[k] as int]),
                forall|k: int| 0 <= k < order@.len() ==> (#[trigger] order@[k]) < chunks@.len(),
                total_len(goal) <= u64::MAX,
                sorted@ == goal.take(i as int),
                total == total_len(goal.take(i as int)),
                ends@.len() == i,
                forall|k: int|
                    0 <= k < i ==> #[trigger] ends@[k] == total_len(goal.take(k + 1)),
            decreases order@.len() - i,
        {
            let c = chunks[order[i]];
            proof {
                lemma_total_prefix(goal, i + 1);
                assert(goal.take(i + 1).drop_last() =~= goal.take(i as int));
            }
            sorted.push(c);
            total = total + c.len;
            ends.push(total);
            i += 1;
        }
        assert(goal.take(goal.len() as int) =~= goal);
        proof {
            assert forall|k: int| 0 <= k < ends@.len() implies #[trigger] ends@[k] == total_len(
                sorted@.take(k + 1),
            ) by {
                assert(sorted@.take(k + 1) =~= goal.take(k + 1));
            }
            assert(orders(chunks@, sorted@, order@));
            if are_addressable(chunks@) {
                assert forall|k: nat| k < total_len(sorted@) implies ({
                    let (i, off) = #[trigger] located(sorted@, k);
                    0 <= i < sorted@.len() && sorted@[i].start + off <= u64::MAX
                }) by {
                    law_addressable_bytes_can_be_picked(chunks@, sorted@, k);
                }
            }
        }
        ChunkMap { chunks: sorted, ends, total }
    }

    /// How many bytes there are.
    pub open spec fn bytes(&self) -> nat {
        self.total as nat
    }

    /// How many bytes there are to pick from.
    pub fn total_bytes(&self) -> (r: u64)
        ensures
            r == self.bytes(),
    {
        self.total
    }

    /// Maps `r` in `[0, total)` to (logical address, chunk flags).
    pub fn pick(&self, r: u64) -> (p: (u64, u64))
        requires
            self.wf(),
            r < self.bytes(),
            ({
                let (i, off) = located(self@, r as nat);
                self@[i].start + off <= u64::MAX
            }),
        ensures
            (p.0 as int, p.1) == picked(self@, r as nat),
            ({
                let (i, off) = located(self@, r as nat);
                &&& 0 <= i < self@.len()
                &&& off < self@[i].len
            }),
    {
        let i = self.holding(r);
        let before = if i == 0 {
            0
        } else {
            self.ends[i - 1]
        };
        proof {
            assert(self@.take(0) =~= Seq::<Chunk>::empty());
            lemma_located(self@, r as nat, i as int);
        }
        let c = &self.chunks[i];
        (c.start + (r - before), c.flags)
    }

    /// Draws a byte at random: its logical address, and the flags of its chunk.
    pub fn draw(&self, rng: &mut Rng) -> (p: (u64, u64))
        requires
            self.wf(),
            self.bytes() > 0,
            pickable(self@),
        ensures
            final(rng)@ == stepped(old(rng)@),
            (p.0 as int, p.1) == picked(
                self@,
                scaled(scrambled(final(rng)@), self.bytes() as u64),
            ),
    {
        let r = rng.below(self.total);
        self.pick(r)
    }

    /// Which chunk holds byte `r`: the first that ends beyond it.
    fn holding(&self, r: u64) -> (i: usize)
        requires
            self.wf(),
            r < self.bytes(),
        ensures
            i < self@.len(),
            total_len(self@.take(i as int)) <= r < total_len(self@.take(i + 1)),
    {
        let mut lo: usize = 0;
        let mut hi: usize = self.ends.len();
        proof {
            assert(self@.take(0) =~= Seq::<Chunk>::empty());
            assert(self@.take(self@.len() as int) =~= self@);
        }
        while lo < hi
            invariant
                self.wf(),
                lo <= hi <= self@.len(),
                total_len(self@.take(lo as int)) <= r,
                hi < self@.len() ==> r < total_len(self@.take(hi + 1)),
            decreases hi - lo,
        {
            let mid = lo + (hi - lo) / 2;
            if self.ends[mid] <= r {
                lo = mid + 1;
            } else {
                hi = mid;
            }
        }
        lo
    }
}

proof fn lemma_total_prefix(chunks: Seq<Chunk>, n: int)
    requires
        0 <= n <= chunks.len(),
    ensures
        total_len(chunks.take(n)) <= total_len(chunks),
    decreases chunks.len() - n,
{
    if n < chunks.len() {
        lemma_total_prefix(chunks, n + 1);
        assert(chunks.take(n + 1).drop_last() =~= chunks.take(n));
    } else {
        assert(chunks.take(n) =~= chunks);
    }
}

proof fn lemma_total_remove(chunks: Seq<Chunk>, k: int)
    requires
        0 <= k < chunks.len(),
    ensures
        total_len(chunks) == total_len(chunks.remove(k)) + chunks[k].len,
    decreases chunks.len(),
{
    if k == chunks.len() - 1 {
        assert(chunks.remove(k) =~= chunks.drop_last());
    } else {
        lemma_total_remove(chunks.drop_last(), k);
        assert(chunks.remove(k).drop_last() =~= chunks.drop_last().remove(k));
        assert(chunks.remove(k).last() == chunks.last());
    }
}

/// The order of the chunks does not matter to how many bytes they have.
proof fn lemma_order_keeps_total(chunks: Seq<Chunk>, sorted: Seq<Chunk>, order: Seq<usize>)
    requires
        chunks.len() <= usize::MAX,
        order.len() == chunks.len(),
        order.no_duplicates(),
        forall|k: int| 0 <= k < order.len() ==> (#[trigger] order[k]) < chunks.len(),
        forall|x: usize| x < chunks.len() ==> #[trigger] order.contains(x),
        sorted == Seq::new(order.len(), |k: int| chunks[order[k] as int]),
    ensures
        total_len(sorted) == total_len(chunks),
    decreases chunks.len(),
{
    if chunks.len() > 0 {
        let x = (chunks.len() - 1) as usize;
        assert(order.contains(x));
        let k = choose|k: int| 0 <= k < order.len() && order[k] == x;
        let front = chunks.drop_last();
        let rest = order.remove(k);
        assert forall|j: int| 0 <= j < rest.len() implies (#[trigger] rest[j]) < front.len() by {
            let i = if j < k {
                j
            } else {
                j + 1
            };
            assert(order[i] < chunks.len());
            assert(order[i] != order[k]);
        }
        assert forall|y: usize| y < front.len() implies #[trigger] rest.contains(y) by {
            assert(order.contains(y));
            let i = choose|i: int| 0 <= i < order.len() && order[i] == y;
            assert(rest[if i < k {
                i
            } else {
                i - 1
            }] == y);
        }
        let smaller = Seq::new(rest.len(), |j: int| front[rest[j] as int]);
        lemma_order_keeps_total(front, smaller, rest);
        lemma_total_remove(sorted, k);
        assert(sorted.remove(k) =~= smaller);
    } else {
        assert(sorted =~= chunks);
    }
}

proof fn lemma_located(chunks: Seq<Chunk>, r: nat, i: int)
    requires
        0 <= i < chunks.len(),
        total_len(chunks.take(i)) <= r < total_len(chunks.take(i + 1)),
    ensures
        located(chunks, r) == (i, (r - total_len(chunks.take(i))) as nat),
        r - total_len(chunks.take(i)) < chunks[i].len,
    decreases chunks.len(),
{
    assert(chunks.take(i + 1).drop_last() =~= chunks.take(i));
    if i == chunks.len() - 1 {
        assert(chunks.take(i) =~= chunks.drop_last());
    } else {
        lemma_total_prefix(chunks.drop_last(), i + 1);
        assert(chunks.drop_last().take(i + 1) =~= chunks.take(i + 1));
        assert(chunks.drop_last().take(i) =~= chunks.take(i));
        lemma_located(chunks.drop_last(), r, i);
    }
}

/// Every byte of every chunk is picked by one number, and one only.
pub proof fn law_every_byte_is_picked_once(chunks: Seq<Chunk>, i: int, off: nat, r: nat)
    requires
        0 <= i < chunks.len(),
        off < chunks[i].len,
        r < total_len(chunks),
    ensures
        total_len(chunks.take(i)) + off < total_len(chunks),
        located(chunks, r) == (i, off) <==> r == total_len(chunks.take(i)) + off,
{
    assert(chunks.take(i + 1).drop_last() =~= chunks.take(i));
    lemma_total_prefix(chunks, i + 1);
    lemma_located(chunks, total_len(chunks.take(i)) + off, i);
    let k = lemma_some_chunk(chunks, r);
    lemma_located(chunks, r, k);
}

proof fn lemma_some_chunk(chunks: Seq<Chunk>, r: nat) -> (i: int)
    requires
        r < total_len(chunks),
    ensures
        0 <= i < chunks.len(),
        total_len(chunks.take(i)) <= r < total_len(chunks.take(i + 1)),
    decreases chunks.len(),
{
    let front = chunks.drop_last();
    assert(chunks.take(chunks.len() as int) =~= chunks);
    if r < total_len(front) {
        let i = lemma_some_chunk(front, r);
        assert(front.take(i) =~= chunks.take(i));
        assert(front.take(i + 1) =~= chunks.take(i + 1));
        i
    } else {
        assert(chunks.take(chunks.len() - 1) =~= front);
        chunks.len() - 1
    }
}

/// Whether no two chunks start at the same address.
pub open spec fn distinct_starts(chunks: Seq<Chunk>) -> bool {
    forall|i: int, j: int|
        0 <= i < j < chunks.len() ==> (#[trigger] chunks[i]).start != (#[trigger] chunks[j]).start
}

/// The order in which chunks are given does not matter: where no two start at the
/// same address, they come to one map, with the same bytes in the same places.
pub proof fn law_chunk_order_does_not_matter(
    chunks: Seq<Chunk>,
    other: Seq<Chunk>,
    sorted: Seq<Chunk>,
    sorted_other: Seq<Chunk>,
    r: nat,
)
    requires
        distinct_starts(chunks),
        chunks.to_multiset() == other.to_multiset(),
        chunks.len() <= usize::MAX,
        is_by_start(chunks, sorted),
        is_by_start(other, sorted_other),
    ensures
        sorted == sorted_other,
        total_len(sorted) == total_len(chunks) == total_len(other),
        picked(sorted, r) == picked(sorted_other, r),
{
    broadcast use vstd::seq_lib::group_to_multiset_ensures;

    lemma_distinct_starts(chunks, other);
    lemma_by_start(chunks, sorted);
    lemma_by_start(other, sorted_other);
    assert forall|x: Chunk| #[trigger] sorted.contains(x) <==> sorted_other.contains(x) by {
        assert(chunks.contains(x) <==> chunks.to_multiset().count(x) > 0);
        assert(other.contains(x) <==> other.to_multiset().count(x) > 0);
    }
    lemma_one_order(sorted, sorted_other, |x: Chunk, y: Chunk| x.start < y.start);
}

/// Chunks given in another order start at distinct addresses too.
proof fn lemma_distinct_starts(chunks: Seq<Chunk>, other: Seq<Chunk>)
    requires
        distinct_starts(chunks),
        chunks.to_multiset() == other.to_multiset(),
    ensures
        distinct_starts(other),
        other.len() == chunks.len(),
{
    broadcast use vstd::seq_lib::group_to_multiset_ensures;

    assert(chunks.to_multiset().len() == chunks.len());
    assert(other.to_multiset().len() == other.len());
    assert(chunks.no_duplicates());
    chunks.lemma_multiset_has_no_duplicates();
    other.lemma_multiset_has_no_duplicates_conv();
    assert forall|i: int, j: int| 0 <= i < j < other.len() implies (#[trigger] other[i]).start != (
    #[trigger] other[j]).start by {
        let (x, y) = (other[i], other[j]);
        assert(other.contains(x) && other.contains(y));
        assert(chunks.to_multiset().count(x) > 0 && chunks.to_multiset().count(y) > 0);
        assert(chunks.contains(x) && chunks.contains(y));
        let k = choose|k: int| 0 <= k < chunks.len() && chunks[k] == x;
        let l = choose|l: int| 0 <= l < chunks.len() && chunks[l] == y;
        if k == l {
            assert(x == y);
        }
    }
}

proof fn lemma_by_start(chunks: Seq<Chunk>, sorted: Seq<Chunk>)
    requires
        distinct_starts(chunks),
        chunks.len() <= usize::MAX,
        is_by_start(chunks, sorted),
    ensures
        in_order(sorted, |x: Chunk, y: Chunk| x.start < y.start),
        forall|x: Chunk| #[trigger] sorted.contains(x) <==> chunks.contains(x),
        total_len(sorted) == total_len(chunks),
{
    let order = choose|order: Seq<usize>| #[trigger] orders(chunks, sorted, order);
    let lt = |x: int, y: int| chunks[x].start < chunks[y].start;
    assert forall|j: int, k: int| 0 <= j < k < sorted.len() implies (#[trigger] sorted[j]).start < (
    #[trigger] sorted[k]).start by {
        assert(ranks(lt, order[j] as int, order[k] as int));
    }
    assert forall|x: Chunk| #[trigger] sorted.contains(x) <==> chunks.contains(x) by {
        if sorted.contains(x) {
            let k = choose|k: int| 0 <= k < sorted.len() && sorted[k] == x;
            assert(order[k] < chunks.len());
            assert(chunks[order[k] as int] == x);
        }
        if chunks.contains(x) {
            let k = choose|k: int| 0 <= k < chunks.len() && chunks[k] == x;
            assert(order.contains(k as usize));
            let i = choose|i: int| 0 <= i < order.len() && order[i] == k as usize;
            assert(sorted[i] == x);
        }
    }
    assert(order.no_duplicates()) by {
        assert forall|j: int, k: int| 0 <= j < k < order.len() implies #[trigger] order[j]
            != #[trigger] order[k] by {
            assert(ranks(lt, order[j] as int, order[k] as int));
        }
    }
    assert(sorted =~= Seq::new(order.len(), |k: int| chunks[order[k] as int]));
    lemma_order_keeps_total(chunks, sorted, order);
}

/// Whether the chunks' bytes can be counted and every one has an address.
pub open spec fn are_addressable(chunks: Seq<Chunk>) -> bool {
    &&& total_len(chunks) <= u64::MAX
    &&& forall|i: int|
        0 <= i < chunks.len() ==> (#[trigger] chunks[i]).start + chunks[i].len <= u64::MAX + 1
}

/// Whether the chunks' bytes can be counted and every one has an address.
pub fn addressable(chunks: &Vec<Chunk>) -> (r: bool)
    ensures
        r == are_addressable(chunks@),
{
    let mut total: u64 = 0;
    let mut i: usize = 0;
    assert(chunks@.take(0) =~= Seq::<Chunk>::empty());
    while i < chunks.len()
        invariant
            i <= chunks@.len(),
            total == total_len(chunks@.take(i as int)),
            forall|k: int|
                0 <= k < i ==> (#[trigger] chunks@[k]).start + chunks@[k].len <= u64::MAX + 1,
        decreases chunks@.len() - i,
    {
        let c = chunks[i];
        proof {
            assert(chunks@.take(i + 1).drop_last() =~= chunks@.take(i as int));
            lemma_total_prefix(chunks@, i + 1);
        }
        if c.len > u64::MAX - total || (c.len > 0 && c.len - 1 > u64::MAX - c.start) {
            return false;
        }
        total = total + c.len;
        i += 1;
    }
    assert(chunks@.take(chunks@.len() as int) =~= chunks@);
    true
}

/// Where all bytes have an address, each can be picked.
pub proof fn law_addressable_bytes_can_be_picked(chunks: Seq<Chunk>, sorted: Seq<Chunk>, r: nat)
    requires
        are_addressable(chunks),
        is_by_start(chunks, sorted),
        r < total_len(sorted),
    ensures
        ({
            let (i, off) = located(sorted, r);
            &&& 0 <= i < sorted.len()
            &&& off < sorted[i].len
            &&& sorted[i].start + off <= u64::MAX
        }),
{
    let order = choose|order: Seq<usize>| #[trigger] orders(chunks, sorted, order);
    let i = lemma_some_chunk(sorted, r);
    lemma_located(sorted, r, i);
    assert(sorted[i] == chunks[order[i] as int]);
    assert(chunks[order[i] as int].start + chunks[order[i] as int].len <= u64::MAX + 1);
}

// ---- remembered subvolumes ----

/// Subvolume cache whose inserts are dropped if it was invalidated after
/// the caller started its (lock-free) lookup.
pub struct Cache<V> {
    pub generation: u64,
    pub map: HashMap<u64, V>,
}

/// What is remembered after a lookup that `started` in some generation, now
/// that the generation is `current`.
pub open spec fn remembered<V>(
    map: Map<u64, V>,
    current: u64,
    started: u64,
    k: u64,
    v: V,
) -> Map<u64, V> {
    if started == current {
        map.insert(k, v)
    } else {
        map
    }
}

/// What was looked up before everything was forgotten is never remembered
/// after.
pub proof fn law_stale_lookups_are_dropped<V>(
    map: Map<u64, V>,
    started: u64,
    current: u64,
    k: u64,
    v: V,
)
    requires
        started < current,
    ensures
        remembered(map, current, started, k, v) == map,
{
}

impl<V: Clone> Cache<V> {
    pub fn new() -> (r: Self)
        ensures
            r.generation == 0,
            r.map@ == Map::<u64, V>::empty(),
    {
        Cache { generation: 0, map: HashMap::new() }
    }

    /// A copy of what is remembered for `k`.
    pub fn get(&self, k: u64) -> (r: Option<V>)
        ensures
            r is Some <==> self.map@.dom().contains(k),
            r matches Some(v) ==> cloned::<V>(self.map@[k], v),
    {
        match self.map.get(&k) {
            Some(v) => Some(v.clone()),
            None => None,
        }
    }

    /// Remembers `v`, unless everything was forgotten since `generation`.
    pub fn insert(&mut self, generation: u64, k: u64, v: V)
        ensures
            final(self).generation == old(self).generation,
            final(self).map@ == remembered(
                old(self).map@,
                old(self).generation,
                generation,
                k,
                v,
            ),
    {
        if generation == self.generation {
            self.map.insert(k, v);
        }
    }

    /// Forgets everything.
    pub fn invalidate(&mut self)
        requires
            old(self).generation < u64::MAX,
        ensures
            final(self).generation == old(self).generation + 1,
            final(self).map@ == Map::<u64, V>::empty(),
    {
        self.generation += 1;
        self.map.clear();
    }
}

// ---- paths ----

/// `b` below `a`, without slashes at its ends.
pub open spec fn joined_path(a: Seq<char>, b: Seq<char>) -> Seq<char> {
    let b = trimmed(b, '/');
    if a.len() == 0 {
        b
    } else if b.len() == 0 {
        a
    } else {
        a + seq!['/'] + b
    }
}

pub fn join_path(a: &str, b: &str) -> (r: String)
    ensures
        r@ == joined_path(a@, b@),
{
    let b = trim_text(b, '/');
    if a.is_empty() {
        b
    } else if b.as_str().is_empty() {
        owned(a)
    } else {
        let mut r = owned(a);
        r.push('/');
        r.append(b.as_str());
        assert(r@ =~= a@ + seq!['/'] + b@);
        r
    }
}

/// How far up the subvolumes are followed.
pub const MAX_DEPTH: u32 = 64;

/// The way from a subvolume up to the top level, as far as it is known.
pub struct Climb {
    pub root: u64,
    pub depth: u32,
    /// Where each subvolume on the way hangs in the one above, the lowest first.
    pub names: Vec<String>,
}

/// What is to be done to know a subvolume's path.
pub enum ClimbStep {
    /// The path is known.
    Found(String),
    /// The way up does not end.
    Lost,
    /// Find out where this subvolume hangs.
    Ask(u64),
}

/// The path of a subvolume that is reached by `names` from the top level, the
/// lowest first.
pub open spec fn climbed(names: Seq<Seq<char>>) -> Seq<char>
    decreases names.len(),
{
    if names.len() == 0 {
        Seq::empty()
    } else {
        joined_path(climbed(names.drop_first()), names.first())
    }
}

/// The path of those names from `from` on.
fn descend(names: &Vec<String>, from: usize) -> (r: String)
    requires
        from <= names@.len(),
    ensures
        r@ == climbed(texts(names@).skip(from as int)),
    decreases names@.len() - from,
{
    if from == names.len() {
        assert(texts(names@).skip(from as int) =~= Seq::<Seq<char>>::empty());
        let r = String::new();
        assert(r@ =~= Seq::<char>::empty());
        r
    } else {
        let above = descend(names, from + 1);
        let s = &names[from];
        assert(texts(names@).skip(from as int).drop_first() =~= texts(names@).skip(from + 1));
        assert(texts(names@).skip(from as int).first() == s@);
        join_path(above.as_str(), s.as_str())
    }
}

impl Climb {
    /// Starts at subvolume `root`.
    pub fn new(root: u64) -> (r: Self)
        ensures
            r.root == root,
            r.depth == 0,
            texts(r.names@) == Seq::<Seq<char>>::empty(),
    {
        let r = Climb { root, depth: 0, names: Vec::new() };
        assert(texts(r.names@) =~= Seq::<Seq<char>>::empty());
        r
    }

    /// What is to be done next.
    pub fn step(&self) -> (r: ClimbStep)
        ensures
            match r {
                ClimbStep::Found(path) => self.root == FS_TREE_OBJECTID && path@ == climbed(
                    texts(self.names@),
                ),
                ClimbStep::Lost => self.root != FS_TREE_OBJECTID && self.depth > MAX_DEPTH,
                ClimbStep::Ask(root) => self.root != FS_TREE_OBJECTID && self.depth <= MAX_DEPTH
                    && root == self.root,
            },
    {
        if self.root == FS_TREE_OBJECTID {
            assert(texts(self.names@).skip(0) =~= texts(self.names@));
            ClimbStep::Found(descend(&self.names, 0))
        } else if self.depth > MAX_DEPTH {
            ClimbStep::Lost
        } else {
            ClimbStep::Ask(self.root)
        }
    }

    /// Goes up to `parent`, in whose directory `dir` ("a/b/" or "") the
    /// subvolume is called `name`.
    pub fn up(&mut self, parent: u64, dir: &str, name: &str)
        requires
            old(self).depth <= MAX_DEPTH,
        ensures
            final(self).root == parent,
            final(self).depth == old(self).depth + 1,
            texts(final(self).names@) == texts(old(self).names@).push(dir@ + name@),
    {
        self.root = parent;
        self.depth = self.depth + 1;
        let s = concat(dir, name);
        proof {
            lemma_texts_push(self.names@, s);
        }
        self.names.push(s);
    }
}

// ---- the whole way up ----

/// Where a subvolume hangs: the one above, and the place in there.
pub struct Link {
    pub parent: u64,
    pub place: Seq<char>,
}

/// The path of subvolume `root`, below which `depth` others were passed: its
/// place in the path of the one above. There is none where a link is missing or
/// the way is too long.
pub open spec fn subvol_path(links: Map<u64, Link>, root: u64, depth: nat) -> Option<Seq<char>>
    decreases 65 - depth,
{
    if root == 5 {
        Some(Seq::empty())
    } else if depth > 64 || !links.contains_key(root) {
        None
    } else {
        match subvol_path(links, links[root].parent, depth + 1) {
            Some(above) => Some(joined_path(above, links[root].place)),
            None => None,
        }
    }
}

/// What a climb comes to that is told the links it asks for.
pub open spec fn climb(
    links: Map<u64, Link>,
    root: u64,
    depth: nat,
    names: Seq<Seq<char>>,
) -> Option<Seq<char>>
    decreases 65 - depth,
{
    if root == 5 {
        Some(climbed(names))
    } else if depth > 64 || !links.contains_key(root) {
        None
    } else {
        climb(links, links[root].parent, depth + 1, names.push(links[root].place))
    }
}

/// A climb that is told the links it asks for ends with the subvolume's path.
pub proof fn law_climbing_finds_the_path(links: Map<u64, Link>, root: u64)
    ensures
        climb(links, root, 0, Seq::empty()) == subvol_path(links, root, 0),
{
    lemma_climb(links, root, 0, Seq::empty());
    match subvol_path(links, root, 0) {
        Some(p) => assert(below(p, Seq::empty()) == p),
        None => {},
    }
}

/// The path reached by `names` from `above`, the lowest first.
spec fn below(above: Seq<char>, names: Seq<Seq<char>>) -> Seq<char>
    decreases names.len(),
{
    if names.len() == 0 {
        above
    } else {
        joined_path(below(above, names.drop_first()), names.first())
    }
}

proof fn lemma_climb(links: Map<u64, Link>, root: u64, depth: nat, names: Seq<Seq<char>>)
    ensures
        climb(links, root, depth, names) == (match subvol_path(links, root, depth) {
            Some(p) => Some(below(p, names)),
            None => None,
        }),
    decreases 65 - depth,
{
    if root == 5 {
        lemma_below_top(names);
    } else if depth <= 64 && links.contains_key(root) {
        let l = links[root];
        lemma_climb(links, l.parent, depth + 1, names.push(l.place));
        match subvol_path(links, l.parent, depth + 1) {
            Some(p) => lemma_below_push(p, names, l.place),
            None => {},
        }
    }
}

proof fn lemma_below_top(names: Seq<Seq<char>>)
    ensures
        below(Seq::empty(), names) == climbed(names),
    decreases names.len(),
{
    if names.len() > 0 {
        lemma_below_top(names.drop_first());
    }
}

proof fn lemma_below_push(above: Seq<char>, names: Seq<Seq<char>>, n: Seq<char>)
    ensures
        below(above, names.push(n)) == below(joined_path(above, n), names),
    decreases names.len(),
{
    let more = names.push(n);
    if names.len() == 0 {
        assert(more.drop_first() =~= Seq::empty());
        assert(below(above, more.drop_first()) == above);
        assert(more.first() == n);
    } else {
        assert(more.drop_first() =~= names.drop_first().push(n));
        lemma_below_push(above, names.drop_first(), n);
        assert(more.first() == names.first());
    }
}

/// A subvolume's path leads through the path of the one above and then through its
/// place in there; the top level's is empty. A subvolume whose way up is interrupted
/// has none, and neither has one without a known place.
pub proof fn law_subvolume_lies_below_its_parent(links: Map<u64, Link>, root: u64, depth: nat)
    requires
        depth <= 64,
    ensures
        subvol_path(links, 5, depth) == Some(Seq::<char>::empty()),
        root != 5 && !links.contains_key(root) ==> subvol_path(links, root, depth) is None,
        root != 5 && links.contains_key(root) ==> {
            let above = subvol_path(links, links[root].parent, depth + 1);
            let here = subvol_path(links, root, depth);
            &&& here is Some <==> above is Some
            &&& here is Some ==> components(here->0) == components(above->0) + components(
                links[root].place,
            )
        },
        root != 5 ==> subvol_path(links, root, 65) is None,
        FS_TREE_OBJECTID == 5 && MAX_DEPTH == 64,
{
    if root != 5 && links.contains_key(root) {
        match subvol_path(links, links[root].parent, depth + 1) {
            Some(above) => law_joined_path_leads_through_both(above, links[root].place),
            None => {},
        }
    }
}

proof fn lemma_trimmed_names(b: Seq<char>)
    ensures
        components(trimmed(b, '/')) == components(b),
    decreases b.len(),
{
    if b.len() > 0 && b.first() == '/' {
        lemma_trimmed_names(b.drop_first());
        law_names_of_paths_add_up(b, b.drop_first());
        assert(seq!['/'] + b.drop_first() =~= b);
    } else if b.len() > 0 && b.last() == '/' {
        lemma_trimmed_names(b.drop_last());
        law_names_of_paths_add_up(b.drop_last(), b);
        assert(b.drop_last() + seq!['/'] =~= b);
    }
}

/// A path that is put below another leads through the names of the other and then
/// through its own. Slashes at its ends make no difference, and the result has none at
/// its ends that the other has not.
pub proof fn law_joined_path_leads_through_both(a: Seq<char>, b: Seq<char>)
    ensures
        components(joined_path(a, b)) == components(a) + components(b),
        joined_path(a, seq!['/'] + b) == joined_path(a, b),
        a.is_prefix_of(joined_path(a, b)),
        joined_path(a, Seq::empty()) == a,
        joined_path(a, b).len() > a.len() ==> joined_path(a, b).last() != '/',
        a.len() == 0 && joined_path(a, b).len() > 0 ==> joined_path(a, b).first() != '/',
{
    lemma_trimmed_names(b);
    law_trimming_takes_the_ends_off(b, '/');
    let t = trimmed(b, '/');
    law_names_of_paths_add_up(a, t);
    law_names_of_paths_add_up(Seq::empty(), t);
    assert(Seq::<Seq<char>>::empty() + components(b) =~= components(b));
    assert(components(a) + Seq::<Seq<char>>::empty() =~= components(a));
    assert((seq!['/'] + b).drop_first() =~= b);
    assert(joined_path(a, b).take(a.len() as int) =~= a);
    if a.len() == 0 {
        assert(a =~= Seq::<char>::empty());
    }
}

// ---- what is picked ----

/// The bytes of all chunks add up, whatever the order, and each chunk's bytes are
/// picked at the chunk's own addresses and with its own flags.
pub proof fn law_picked_bytes_lie_in_their_chunks(
    chunks: Seq<Chunk>,
    more: Seq<Chunk>,
    i: int,
    off: nat,
)
    requires
        0 <= i < chunks.len(),
        off < chunks[i].len,
    ensures
        total_len(chunks + more) == total_len(chunks) + total_len(more),
        total_len(seq![chunks[i]]) == chunks[i].len,
        picked(chunks, total_len(chunks.take(i)) + off) == (
            chunks[i].start + off,
            chunks[i].flags,
        ),
{
    lemma_totals_add(chunks, more);
    reveal_with_fuel(total_len, 2);
    assert(seq![chunks[i]].drop_last() =~= Seq::<Chunk>::empty());
    assert(chunks.take(i + 1).drop_last() =~= chunks.take(i));
    lemma_total_prefix(chunks, i + 1);
    law_every_byte_is_picked_once(chunks, i, off, total_len(chunks.take(i)) + off);
}

proof fn lemma_totals_add(chunks: Seq<Chunk>, more: Seq<Chunk>)
    ensures
        total_len(chunks + more) == total_len(chunks) + total_len(more),
    decreases more.len(),
{
    if more.len() == 0 {
        assert(chunks + more =~= chunks);
    } else {
        lemma_totals_add(chunks, more.drop_last());
        assert((chunks + more).drop_last() =~= chunks + more.drop_last());
        assert((chunks + more).last() == more.last());
    }
}

/// The chunks are kept by their addresses, each of them and no other.
pub proof fn law_chunks_are_kept_by_address(chunks: Seq<Chunk>, sorted: Seq<Chunk>, j: int, k: int)
    requires
        chunks.len() <= usize::MAX,
        is_by_start(chunks, sorted),
        0 <= j < k < sorted.len(),
    ensures
        sorted.len() == chunks.len(),
        sorted[j].start <= sorted[k].start,
        chunks.contains(sorted[j]),
        chunks.contains(sorted[k]),
        forall|c: Chunk| #[trigger] chunks.contains(c) ==> sorted.contains(c),
{
    let order = choose|order: Seq<usize>| #[trigger] orders(chunks, sorted, order);
    let lt = |x: int, y: int| chunks[x].start < chunks[y].start;
    assert(ranks(lt, order[j] as int, order[k] as int));
    assert(sorted[j] == chunks[order[j] as int]);
    assert(sorted[k] == chunks[order[k] as int]);
    assert(order[j] < chunks.len() && order[k] < chunks.len());
    assert forall|c: Chunk| #[trigger] chunks.contains(c) implies sorted.contains(c) by {
        let at = choose|at: int| 0 <= at < chunks.len() && chunks[at] == c;
        let x = at as usize;
        assert(order.contains(x));
        let n = choose|n: int| 0 <= n < order.len() && order[n] == x;
        assert(sorted[n] == chunks[order[n] as int]);
    }
}

/// What a lookup found is remembered under its own key, and every other key keeps
/// what it had. A lookup of another generation leaves no trace.
pub proof fn law_lookups_are_remembered<V>(
    map: Map<u64, V>,
    started: u64,
    current: u64,
    k: u64,
    v: V,
    other: u64,
)
    ensures
        ({
            let now = remembered(map, current, started, k, v);
            &&& started == current ==> now.contains_key(k) && now[k] == v
            &&& started != current ==> now == map
            &&& other != k ==> (now.contains_key(other) <==> map.contains_key(other)) && (
            map.contains_key(other) ==> now[other] == map[other])
        }),
{
}

/// Chunks can be sampled exactly when their bytes can be numbered and each of them has an
/// address, the last one of all included.
pub proof fn law_chunks_with_addresses_can_be_sampled(chunks: Seq<Chunk>)
    ensures
        are_addressable(chunks) <==> total_len(chunks) <= 0xffff_ffff_ffff_ffff && forall|i: int|
            0 <= i < chunks.len() && (#[trigger] chunks[i]).len > 0 ==> chunks[i].start + (
            chunks[i].len - 1) <= 0xffff_ffff_ffff_ffff,
{
    if forall|i: int|
        0 <= i < chunks.len() && (#[trigger] chunks[i]).len > 0 ==> chunks[i].start + (
        chunks[i].len - 1) <= 0xffff_ffff_ffff_ffff {
        assert forall|i: int| 0 <= i < chunks.len() implies (#[trigger] chunks[i]).start
            + chunks[i].len <= u64::MAX + 1 by {
            assert(chunks[i].len > 0 ==> chunks[i].start + (chunks[i].len - 1)
                <= 0xffff_ffff_ffff_ffff);
        }
    }
}

} // verus!
