//! Finding the filesystem and its top-level subvolume (subvolid 5).

use vstd::prelude::*;

use crate::btrfs::ops::{from_utf8_lossy, lossy, FIRST_FREE_OBJECTID, FS_TREE_OBJECTID};
use crate::text::{
    byte_len, chars_of, joined, law_joined_pieces_are_split, len_of, lines, lines_of, owned,
    same_text, split, split_text, string_of, texts,
};
use vstd::utf8::{decode_utf8, encode_scalar, encode_utf8, valid_utf8};

verus! {

pub const BTRFS_SUPER_MAGIC: i64 = 0x9123_683E;

/// Whether a filesystem of this type is btrfs.
pub fn is_btrfs(fs_type: i64) -> (r: bool)
    ensures
        r == (fs_type == 0x9123_683E),
{
    fs_type == BTRFS_SUPER_MAGIC
}

/// Whether inode `ino` of tree `tree` is the directory of the top-level
/// subvolume.
pub fn is_top_level(tree: u64, ino: u64) -> (r: bool)
    ensures
        r == (tree == 5 && ino == 256),
{
    tree == FS_TREE_OBJECTID && ino == FIRST_FREE_OBJECTID
}

// ---- escapes ----

/// Whether `b` is an octal digit.
pub open spec fn is_octal(b: u8) -> bool {
    48 <= b <= 55
}

/// Whether an escape of three octal digits stands at `i`.
pub open spec fn is_escape(b: Seq<u8>, i: int) -> bool {
    &&& i + 3 < b.len()
    &&& b[i] == 92
    &&& is_octal(b[i + 1])
    &&& is_octal(b[i + 2])
    &&& is_octal(b[i + 3])
}

/// The byte that an escape stands for; a question mark where it is none.
pub open spec fn escaped_byte(x: u8, y: u8, z: u8) -> u8 {
    let n = (x - 48) * 64 + (y - 48) * 8 + (z - 48);
    if n < 256 {
        n as u8
    } else {
        63
    }
}

/// The bytes from `i` on with every escape resolved.
pub open spec fn unescaped(b: Seq<u8>, i: int) -> Seq<u8>
    decreases b.len() - i,
{
    if i < 0 || i >= b.len() {
        Seq::empty()
    } else if is_escape(b, i) {
        seq![escaped_byte(b[i + 1], b[i + 2], b[i + 3])] + unescaped(b, i + 4)
    } else {
        seq![b[i]] + unescaped(b, i + 1)
    }
}

/// Whether `raw` stands for `text` once every escape is resolved: where that makes
/// UTF-8, for the text that it encodes, and without a backslash for itself.
pub open spec fn reads_as(raw: Seq<char>, text: Seq<char>) -> bool {
    let b = unescaped(encode_utf8(raw), 0);
    &&& text == lossy(b)
    &&& valid_utf8(b) ==> text == decode_utf8(b)
    &&& !raw.contains('\\') ==> text == raw
}

/// Decodes mountinfo's `\\ooo` octal escapes.
pub fn unescape(s: &str) -> (r: String)
    ensures
        reads_as(s@, r@),
{
    let out = unescape_bytes(s.as_bytes());
    proof {
        if !s@.contains('\\') {
            let b = encode_utf8(s@);
            lemma_backslash_bytes(s@);
            law_plain_text_has_no_escapes(b, 0);
            assert(b.skip(0) =~= b);
            vstd::utf8::encode_utf8_valid_utf8(s@);
            vstd::utf8::encode_utf8_decode_utf8(s@);
        }
    }
    from_utf8_lossy(out.as_slice())
}

/// Only a backslash has the byte of one.
proof fn lemma_backslash_bytes(s: Seq<char>)
    requires
        !s.contains('\\'),
    ensures
        forall|k: int| 0 <= k < encode_utf8(s).len() ==> #[trigger] encode_utf8(s)[k] != 92,
    decreases s.len(),
{
    if s.len() > 0 {
        let rest = s.drop_first();
        assert forall|c: char| rest.contains(c) implies s.contains(c) by {
            let k = choose|k: int| 0 <= k < rest.len() && rest[k] == c;
            assert(s[k + 1] == c);
        }
        lemma_backslash_bytes(rest);
        let c = s[0] as u32;
        vstd::utf8::char_is_scalar(s[0]);
        vstd::utf8::char_u32_cast(s[0], c);
        assert(s.contains(s[0]));
        assert(c != 92);
        assert(c <= 0x7f && c != 92 ==> (c & 0x7f) as u8 != 92) by (bit_vector);
        assert((0xC0u8 | ((c >> 6) & 0x1F) as u8) != 92 && (0xE0u8 | ((c >> 12) & 0x0F) as u8) != 92
            && (0xF0u8 | ((c >> 18) & 0x7) as u8) != 92 && (0x80u8 | (c & 0x3F) as u8) != 92 && (
        0x80u8 | ((c >> 6) & 0x3F) as u8) != 92 && (0x80u8 | ((c >> 12) & 0x3F) as u8) != 92)
            by (bit_vector);
        let e = encode_scalar(c);
        assert forall|k: int| 0 <= k < e.len() implies #[trigger] e[k] != 92 by {}
        assert(encode_utf8(s) == e + encode_utf8(rest));
    }
}

/// Decodes octal escapes in bytes.
pub fn unescape_bytes(b: &[u8]) -> (r: Vec<u8>)
    ensures
        r@ == unescaped(b@, 0),
{
    let mut out: Vec<u8> = Vec::new();
    let mut i: usize = 0;
    let n = b.len();
    assert(Seq::<u8>::empty() + unescaped(b@, 0) =~= unescaped(b@, 0));
    while i < n
        invariant
            n == b@.len(),
            i <= n,
            out@ + unescaped(b@, i as int) == unescaped(b@, 0),
        decreases n - i,
    {
        let ghost was = out@;
        if b[i] == 92 && n - i > 3 && octal(b[i + 1]) && octal(b[i + 2]) && octal(b[i + 3]) {
            let v: u16 = (b[i + 1] - 48) as u16 * 64 + (b[i + 2] - 48) as u16 * 8 + (b[i + 3]
                - 48) as u16;
            let byte = if v < 256 {
                v as u8
            } else {
                63
            };
            out.push(byte);
            assert(out@ + unescaped(b@, i + 4) =~= was + (seq![byte] + unescaped(b@, i + 4)));
            i += 4;
        } else {
            out.push(b[i]);
            assert(out@ + unescaped(b@, i + 1) =~= was + (seq![b@[i as int]] + unescaped(
                b@,
                i + 1,
            )));
            i += 1;
        }
    }
    assert(out@ + Seq::<u8>::empty() =~= out@);
    out
}

fn octal(b: u8) -> (r: bool)
    ensures
        r == is_octal(b),
{
    48 <= b && b <= 55
}

/// Text without a backslash has no escapes.
pub proof fn law_plain_text_has_no_escapes(b: Seq<u8>, i: int)
    requires
        0 <= i <= b.len(),
        forall|k: int| i <= k < b.len() ==> #[trigger] b[k] != 92,
    ensures
        unescaped(b, i) == b.skip(i),
    decreases b.len() - i,
{
    if i < b.len() {
        law_plain_text_has_no_escapes(b, i + 1);
        assert(seq![b[i]] + b.skip(i + 1) =~= b.skip(i));
    } else {
        assert(b.skip(i) =~= Seq::<u8>::empty());
    }
}

// ---- mounts ----

/// Where `" - "` first stands in a line, from `i` on.
pub open spec fn dash_at(line: Seq<char>, i: int) -> Option<int>
    decreases line.len() - i,
{
    if i < 0 || i + 3 > line.len() {
        None
    } else if line[i] == ' ' && line[i + 1] == '-' && line[i + 2] == ' ' {
        Some(i)
    } else {
        dash_at(line, i + 1)
    }
}

/// What a line of mountinfo says about a btrfs mount: mount point and source, with
/// their escapes.
pub open spec fn mount_of(line: Seq<char>) -> Option<(Seq<char>, Seq<char>)> {
    match dash_at(line, 0) {
        Some(i) => {
            let before = split(line.take(i), ' ');
            let after = split(line.skip(i + 3), ' ');
            if after.len() >= 2 && before.len() >= 5 && after[0] == "btrfs"@ {
                Some((before[4], after[1]))
            } else {
                None
            }
        },
        None => None,
    }
}

/// What the lines of mountinfo say about btrfs mounts, with their escapes.
pub open spec fn mounts_of(all: Seq<Seq<char>>) -> Seq<(Seq<char>, Seq<char>)>
    decreases all.len(),
{
    if all.len() == 0 {
        Seq::empty()
    } else {
        let rest = mounts_of(all.drop_last());
        match mount_of(all.last()) {
            Some(m) => rest.push(m),
            None => rest,
        }
    }
}

/// A mounted btrfs.
#[derive(Clone, Debug)]
pub struct Mount {
    pub point: String,
    pub source: String,
}

impl View for Mount {
    type V = (Seq<char>, Seq<char>);

    open spec fn view(&self) -> (Seq<char>, Seq<char>) {
        (self.point@, self.source@)
    }
}

/// What the mounts are.
pub open spec fn mount_views(v: Seq<Mount>) -> Seq<(Seq<char>, Seq<char>)> {
    v.map_values(|m: Mount| m@)
}

/// Whether a mount is what mountinfo says with these two texts.
pub open spec fn says(raw: (Seq<char>, Seq<char>), m: (Seq<char>, Seq<char>)) -> bool {
    reads_as(raw.0, m.0) && reads_as(raw.1, m.1)
}

fn find_dash(line: &Vec<char>) -> (r: Option<usize>)
    ensures
        match r {
            Some(i) => dash_at(line@, 0) == Some(i as int) && i + 3 <= line@.len(),
            None => dash_at(line@, 0) is None,
        },
{
    let n = line.len();
    let mut i: usize = 0;
    while n - i >= 3
        invariant
            n == line@.len(),
            i <= n,
            dash_at(line@, i as int) == dash_at(line@, 0),
        decreases n - i,
    {
        if line[i] == ' ' && line[i + 1] == '-' && line[i + 2] == ' ' {
            return Some(i);
        }
        i += 1;
    }
    None
}

fn mount_in(line: &str) -> (r: Option<Mount>)
    ensures
        match r {
            Some(m) => mount_of(line@) matches Some(raw) && says(raw, m@),
            None => mount_of(line@) is None,
        },
{
    let chars = chars_of(line);
    let n = chars.len();
    let at = match find_dash(&chars) {
        Some(i) => i,
        None => {
            return None;
        },
    };
    let pre = string_of(&chars, 0, at);
    let post = string_of(&chars, at + 3, n);
    assert(pre@ =~= line@.take(at as int));
    assert(post@ =~= line@.skip(at + 3));
    let before = split_text(pre.as_str(), ' ');
    let after = split_text(post.as_str(), ' ');
    assert(texts(before@).len() == before@.len());
    assert(texts(after@).len() == after@.len());
    if after.len() < 2 || before.len() < 5 {
        return None;
    }
    assert(texts(after@)[0] == after@[0]@ && texts(after@)[1] == after@[1]@);
    assert(texts(before@)[4] == before@[4]@);
    if !same_text(after[0].as_str(), "btrfs") {
        return None;
    }
    Some(Mount { point: unescape(before[4].as_str()), source: unescape(after[1].as_str()) })
}

/// The btrfs mounts that mountinfo lists.
pub fn btrfs_mounts(info: &str) -> (r: Vec<Mount>)
    ensures
        r@.len() == mounts_of(lines(info@)).len(),
        forall|k: int|
            0 <= k < r@.len() ==> says(mounts_of(lines(info@))[k], (#[trigger] r@[k])@),
{
    let all = lines_of(info);
    let ghost ls = lines(info@);
    let mut r: Vec<Mount> = Vec::new();
    let mut i: usize = 0;
    assert(ls.take(0) =~= Seq::<Seq<char>>::empty());
    while i < all.len()
        invariant
            i <= all@.len(),
            ls == texts(all@),
            r@.len() == mounts_of(ls.take(i as int)).len(),
            forall|k: int|
                0 <= k < r@.len() ==> says(
                    mounts_of(ls.take(i as int))[k],
                    (#[trigger] r@[k])@,
                ),
        decreases all@.len() - i,
    {
        assert(ls.take(i + 1).drop_last() =~= ls.take(i as int));
        assert(ls[i as int] == all@[i as int]@);
        if let Some(m) = mount_in(all[i].as_str()) {
            r.push(m);
        }
        i += 1;
    }
    assert(ls.take(ls.len() as int) =~= ls);
    r
}

/// Which of the mounts that a path lies under has the longest mount point; the
/// first of several.
pub open spec fn innermost(
    mounts: Seq<(Seq<char>, Seq<char>)>,
    under: Seq<bool>,
    n: nat,
) -> Option<int>
    decreases n,
{
    if n == 0 {
        None
    } else {
        let i = n - 1;
        match innermost(mounts, under, i as nat) {
            Some(b) => if under[i] && byte_len(mounts[i].0) > byte_len(mounts[b].0) {
                Some(i)
            } else {
                Some(b)
            },
            None => if under[i] {
                Some(i)
            } else {
                None
            },
        }
    }
}

// ---- which mount a path lies under ----

/// The pieces of a path between slashes.
pub open spec fn pieces(b: Seq<u8>) -> Seq<Seq<u8>>
    decreases b.len(),
{
    if b.len() == 0 {
        seq![Seq::empty()]
    } else {
        let front = pieces(b.drop_last());
        if b.last() == 47 {
            front.push(Seq::empty())
        } else {
            front.update(front.len() - 1, front.last().push(b.last()))
        }
    }
}

/// The pieces that count: not the empty ones, and a single dot only at the start.
pub open spec fn counting(all: Seq<Seq<u8>>) -> Seq<Seq<u8>>
    decreases all.len(),
{
    if all.len() == 0 {
        Seq::empty()
    } else {
        let front = counting(all.drop_last());
        if all.last().len() > 0 && (all.last() != seq![46u8] || all.len() == 1) {
            front.push(all.last())
        } else {
            front
        }
    }
}

/// The components of a path, the first of them a slash where it is absolute.
pub open spec fn path_parts(b: Seq<u8>) -> Seq<Seq<u8>> {
    (if b.len() > 0 && b[0] == 47 {
        seq![seq![47u8]]
    } else {
        Seq::empty()
    }) + counting(pieces(b))
}

/// Whether the components of `point` are the first ones of `path`.
pub open spec fn is_under(path: Seq<u8>, point: Seq<u8>) -> bool {
    path_parts(point).is_prefix_of(path_parts(path))
}

/// What byte strings are.
pub open spec fn byte_views(v: Seq<Vec<u8>>) -> Seq<Seq<u8>> {
    v.map_values(|x: Vec<u8>| x@)
}

proof fn lemma_byte_views_push(v: Seq<Vec<u8>>, x: Vec<u8>)
    ensures
        byte_views(v.push(x)) == byte_views(v).push(x@),
{
    assert(byte_views(v.push(x)) =~= byte_views(v).push(x@));
}

fn parts_of(b: &[u8]) -> (r: Vec<Vec<u8>>)
    ensures
        byte_views(r@) == path_parts(b@),
{
    let n = b.len();
    let mut parts: Vec<Vec<u8>> = Vec::new();
    let ghost root: Seq<Seq<u8>> = Seq::empty();
    assert(byte_views(parts@) =~= root);
    if n > 0 && b[0] == 47 {
        let mut slash: Vec<u8> = Vec::new();
        slash.push(47);
        proof {
            lemma_byte_views_push(parts@, slash);
            root = seq![seq![47u8]];
            assert(slash@ =~= seq![47u8]);
            assert(Seq::<Seq<u8>>::empty().push(slash@) =~= root);
        }
        parts.push(slash);
    }
    let mut piece: Vec<u8> = Vec::new();
    let mut first: bool = true;
    let mut i: usize = 0;
    proof {
        assert(b@.take(0) =~= Seq::<u8>::empty());
        assert(pieces(b@.take(0)).drop_last() =~= Seq::<Seq<u8>>::empty());
        assert(root + Seq::<Seq<u8>>::empty() =~= root);
        assert(piece@ =~= Seq::<u8>::empty());
    }
    while i < n
        invariant
            n == b@.len(),
            i <= n,
            pieces(b@.take(i as int)).len() > 0,
            piece@ == pieces(b@.take(i as int)).last(),
            first == (pieces(b@.take(i as int)).len() == 1),
            byte_views(parts@) == root + counting(pieces(b@.take(i as int)).drop_last()),
        decreases n - i,
    {
        let ghost was = pieces(b@.take(i as int));
        let ghost now = pieces(b@.take(i + 1));
        assert(b@.take(i + 1).drop_last() =~= b@.take(i as int));
        if b[i] == 47 {
            assert(now =~= was.push(Seq::empty()));
            assert(now.drop_last() =~= was);
            push_part(&mut parts, piece, first);
            proof {
                let c = counting(was.drop_last());
                assert(root + c.push(was.last()) =~= (root + c).push(was.last()));
            }
            piece = Vec::new();
            first = false;
            assert(piece@ =~= Seq::<u8>::empty());
        } else {
            piece.push(b[i]);
            assert(now.drop_last() =~= was.drop_last());
        }
        i += 1;
    }
    let ghost all = pieces(b@);
    assert(b@.take(n as int) =~= b@);
    push_part(&mut parts, piece, first);
    proof {
        let c = counting(all.drop_last());
        assert(root + c.push(all.last()) =~= (root + c).push(all.last()));
    }
    parts
}

/// Adds a piece if it counts.
fn push_part(parts: &mut Vec<Vec<u8>>, piece: Vec<u8>, first: bool)
    ensures
        byte_views(final(parts)@) == (if piece@.len() > 0 && (piece@ != seq![46u8] || first) {
            byte_views(old(parts)@).push(piece@)
        } else {
            byte_views(old(parts)@)
        }),
{
    let dot = piece.len() == 1 && piece[0] == 46;
    assert(dot == (piece@ =~= seq![46u8]));
    if piece.len() > 0 && (!dot || first) {
        proof {
            lemma_byte_views_push(parts@, piece);
        }
        parts.push(piece);
    }
}

fn same_bytes(x: &Vec<u8>, y: &Vec<u8>) -> (r: bool)
    ensures
        r == (x@ == y@),
{
    if x.len() != y.len() {
        return false;
    }
    let mut i: usize = 0;
    while i < x.len()
        invariant
            x@.len() == y@.len(),
            i <= x@.len(),
            forall|k: int| 0 <= k < i ==> x@[k] == y@[k],
        decreases x@.len() - i,
    {
        if x[i] != y[i] {
            return false;
        }
        i += 1;
    }
    assert(x@ =~= y@);
    true
}

/// Whether `path` lies under `point`: whether it is that path or below it.
pub fn lies_under(path: &[u8], point: &[u8]) -> (r: bool)
    ensures
        r == is_under(path@, point@),
{
    let long = parts_of(path);
    let short = parts_of(point);
    let ghost a = byte_views(long@);
    let ghost b = byte_views(short@);
    if short.len() > long.len() {
        return false;
    }
    let mut i: usize = 0;
    while i < short.len()
        invariant
            a == byte_views(long@),
            b == byte_views(short@),
            a == path_parts(path@),
            b == path_parts(point@),
            i <= short@.len() <= long@.len(),
            forall|k: int| 0 <= k < i ==> #[trigger] b[k] == a[k],
        decreases short@.len() - i,
    {
        assert(a[i as int] == long@[i as int]@ && b[i as int] == short@[i as int]@);
        if !same_bytes(&short[i], &long[i]) {
            assert(a.subrange(0, b.len() as int)[i as int] == a[i as int]);
            return false;
        }
        i += 1;
    }
    assert(b =~= a.subrange(0, b.len() as int));
    true
}

/// For each mount whether a path lies under its mount point.
pub open spec fn unders(mounts: Seq<(Seq<char>, Seq<char>)>, path: Seq<u8>) -> Seq<bool> {
    mounts.map_values(|m: (Seq<char>, Seq<char>)| is_under(path, encode_utf8(m.0)))
}

/// The source of the innermost mount that a path lies under; nothing where it lies
/// under none.
pub fn mount_source(mounts: &Vec<Mount>, path: &[u8]) -> (r: Option<String>)
    ensures
        ({
            let ms = mount_views(mounts@);
            match r {
                Some(s) => innermost(ms, unders(ms, path@), ms.len()) matches Some(i) && 0 <= i
                    < ms.len() && s@ == ms[i].1,
                None => innermost(ms, unders(ms, path@), ms.len()) is None,
            }
        }),
{
    let ghost ms = mount_views(mounts@);
    let ghost under = unders(ms, path@);
    let mut best: Option<usize> = None;
    let mut i: usize = 0;
    while i < mounts.len()
        invariant
            i <= mounts@.len(),
            ms == mount_views(mounts@),
            under == unders(ms, path@),
            match best {
                Some(b) => innermost(ms, under, i as nat) == Some(b as int) && b < i,
                None => innermost(ms, under, i as nat) is None,
            },
        decreases mounts@.len() - i,
    {
        assert(ms[i as int] == mounts@[i as int]@);
        if lies_under(path, mounts[i].point.as_str().as_bytes()) {
            match best {
                Some(b) => {
                    assert(ms[b as int] == mounts@[b as int]@);
                    if len_of(mounts[i].point.as_str()) > len_of(mounts[b].point.as_str()) {
                        best = Some(i);
                    }
                },
                None => {
                    best = Some(i);
                },
            }
        }
        i += 1;
    }
    match best {
        Some(b) => Some(owned(mounts[b].source.as_str())),
        None => None,
    }
}

/// The mount that is chosen is one that the path lies under, none of those has
/// a longer mount point, and there is one whenever the path lies under any.
pub proof fn law_innermost_mount_is_chosen(
    mounts: Seq<(Seq<char>, Seq<char>)>,
    under: Seq<bool>,
    n: nat,
    k: int,
)
    requires
        0 <= k < n,
        under[k],
    ensures
        innermost(mounts, under, n) matches Some(b) && 0 <= b < n && under[b] && byte_len(
            mounts[b].0,
        ) >= byte_len(mounts[k].0),
    decreases n,
{
    if k < n - 1 {
        law_innermost_mount_is_chosen(mounts, under, (n - 1) as nat, k);
    } else if innermost(mounts, under, (n - 1) as nat) is Some {
        lemma_innermost_bound(mounts, under, (n - 1) as nat);
    }
}

proof fn lemma_innermost_bound(mounts: Seq<(Seq<char>, Seq<char>)>, under: Seq<bool>, n: nat)
    ensures
        innermost(mounts, under, n) matches Some(b) ==> 0 <= b < n && under[b],
    decreases n,
{
    if n > 0 {
        lemma_innermost_bound(mounts, under, (n - 1) as nat);
    }
}

/// Of mounts with mount points of one length the first in the list is chosen; where the
/// path lies under none, none is.
pub proof fn law_first_of_equal_mounts_is_chosen(
    mounts: Seq<(Seq<char>, Seq<char>)>,
    under: Seq<bool>,
    n: nat,
    k: int,
)
    requires
        0 <= k < n,
    ensures
        innermost(mounts, under, n) matches Some(b) ==> 0 <= b < n && under[b] && (under[k] && k < b
            ==> byte_len(mounts[k].0) < byte_len(mounts[b].0)),
        (forall|j: int| 0 <= j < n ==> !#[trigger] under[j]) ==> innermost(mounts, under, n)
            is None,
    decreases n,
{
    lemma_innermost_bound(mounts, under, n);
    if n > 1 && k < n - 1 {
        law_first_of_equal_mounts_is_chosen(mounts, under, (n - 1) as nat, k);
        lemma_innermost_bound(mounts, under, (n - 1) as nat);
        if under[k] {
            law_innermost_mount_is_chosen(mounts, under, (n - 1) as nat, k);
        }
    }
    if innermost(mounts, under, n) is Some {
        assert(under[innermost(mounts, under, n)->0]);
    }
}

// ---- what holds of escapes ----

proof fn lemma_unescaped_shift(a: Seq<u8>, b: Seq<u8>, i: int)
    requires
        0 <= i,
    ensures
        unescaped(a + b, a.len() + i) == unescaped(b, i),
    decreases b.len() - i,
{
    if i < b.len() {
        assert((a + b)[a.len() + i] == b[i]);
        if i + 3 < b.len() {
            assert((a + b)[a.len() + i + 1] == b[i + 1]);
            assert((a + b)[a.len() + i + 2] == b[i + 2]);
            assert((a + b)[a.len() + i + 3] == b[i + 3]);
        }
        lemma_unescaped_shift(a, b, i + 1);
        if i + 3 < b.len() {
            lemma_unescaped_shift(a, b, i + 4);
        }
    }
}

/// Every byte can be written as a backslash and its three octal digits, and stands for
/// itself unless it is a backslash before three such digits. Digits that are too large
/// for a byte stand for a question mark.
pub proof fn law_escapes_stand_for_their_bytes(x: u8, rest: Seq<u8>)
    ensures
        unescaped(
            seq![92u8, (48 + x / 64) as u8, (48 + x / 8 % 8) as u8, (48 + x % 8) as u8] + rest,
            0,
        ) == seq![x] + unescaped(rest, 0),
        x != 92 ==> unescaped(seq![x] + rest, 0) == seq![x] + unescaped(rest, 0),
        rest.len() < 3 || !(48 <= rest[0] <= 55 && 48 <= rest[1] <= 55 && 48 <= rest[2] <= 55)
            ==> unescaped(seq![x] + rest, 0) == seq![x] + unescaped(rest, 0),
        unescaped(Seq::empty(), 0) == Seq::<u8>::empty(),
        52 <= x <= 55 ==> unescaped(seq![92u8, x, 48u8, 55u8] + rest, 0) == seq!['?' as u8]
            + unescaped(rest, 0),
{
    let big = seq![92u8, x, 48u8, 55u8];
    if 52 <= x <= 55 {
        let b = big + rest;
        assert(b[0] == 92 && b[1] == x && b[2] == 48 && b[3] == 55);
        assert(is_escape(b, 0));
        lemma_unescaped_shift(big, rest, 0);
    }
    let e = seq![92u8, (48 + x / 64) as u8, (48 + x / 8 % 8) as u8, (48 + x % 8) as u8];
    let b = e + rest;
    assert(b[0] == 92 && b[1] == e[1] && b[2] == e[2] && b[3] == e[3]);
    assert(x / 64 < 4 && x / 8 % 8 < 8 && x % 8 < 8);
    assert((x / 64) * 64 + (x / 8 % 8) * 8 + x % 8 == x);
    assert(is_escape(b, 0));
    assert(escaped_byte(b[1], b[2], b[3]) == x);
    lemma_unescaped_shift(e, rest, 0);
    let c = seq![x] + rest;
    assert(c[0] == x);
    lemma_unescaped_shift(seq![x], rest, 0);
    if rest.len() >= 3 {
        assert(c[1] == rest[0] && c[2] == rest[1] && c[3] == rest[2]);
    }
}

// ---- what holds of mountinfo ----

proof fn lemma_dash_found(line: Seq<char>, i: int, at: int)
    requires
        0 <= i <= at,
        at + 3 <= line.len(),
        line[at] == ' ' && line[at + 1] == '-' && line[at + 2] == ' ',
        forall|k: int|
            i <= k < at ==> !(#[trigger] line[k] == ' ' && line[k + 1] == '-' && line[k + 2]
                == ' '),
    ensures
        dash_at(line, i) == Some(at),
    decreases at - i,
{
    if i < at {
        assert(!(line[i] == ' ' && line[i + 1] == '-' && line[i + 2] == ' '));
        lemma_dash_found(line, i + 1, at);
    }
}

/// A line is its fields up to the first dash that stands alone, and those behind it. It
/// tells of a btrfs mount exactly when the first field behind the dash says so and
/// there is another; then the fifth field of all is the mount point, and the second one
/// behind the dash the source.
pub proof fn law_mount_lines_are_read_by_fields(head: Seq<Seq<char>>, tail: Seq<Seq<char>>)
    requires
        head.len() >= 5,
        tail.len() >= 1,
        forall|i: int| 0 <= i < head.len() ==> !(#[trigger] head[i]).contains(' '),
        forall|i: int| 0 <= i < tail.len() ==> !(#[trigger] tail[i]).contains(' '),
        ({
            let before = joined(head, seq![' ']);
            let line = before + seq![' ', '-', ' '] + joined(tail, seq![' ']);
            forall|k: int|
                0 <= k < before.len() ==> !(#[trigger] line[k] == ' ' && line[k + 1] == '-'
                    && line[k + 2] == ' ')
        }),
    ensures
        ({
            let line = joined(head, seq![' ']) + seq![' ', '-', ' '] + joined(tail, seq![' ']);
            &&& tail[0] == "btrfs"@ && tail.len() >= 2 ==> mount_of(line) == Some(
                (head[4], tail[1]),
            )
            &&& tail[0] != "btrfs"@ || tail.len() < 2 ==> mount_of(line) is None
        }),
{
    let before = joined(head, seq![' ']);
    let after = joined(tail, seq![' ']);
    let line = before + seq![' ', '-', ' '] + after;
    let at = before.len() as int;
    assert(line[at] == ' ' && line[at + 1] == '-' && line[at + 2] == ' ');
    lemma_dash_found(line, 0, at);
    assert(line.take(at) =~= before);
    assert(line.skip(at + 3) =~= after);
    law_joined_pieces_are_split(head, ' ');
    law_joined_pieces_are_split(tail, ' ');
}

/// The lines are read one by one, in their order.
pub proof fn law_mount_lines_are_read_one_by_one(
    a: Seq<Seq<char>>,
    b: Seq<Seq<char>>,
    line: Seq<char>,
)
    ensures
        mounts_of(a + b) == mounts_of(a) + mounts_of(b),
        mounts_of(seq![line]) == (match mount_of(line) {
            Some(m) => seq![m],
            None => Seq::empty(),
        }),
    decreases b.len(),
{
    reveal_with_fuel(mounts_of, 2);
    assert(seq![line].drop_last() =~= Seq::<Seq<char>>::empty());
    match mount_of(line) {
        Some(m) => assert(mounts_of(seq![line]) =~= seq![m]),
        None => {},
    }
    if b.len() == 0 {
        assert(a + b =~= a);
        assert(mounts_of(a) + mounts_of(b) =~= mounts_of(a));
    } else {
        law_mount_lines_are_read_one_by_one(a, b.drop_last(), line);
        assert((a + b).drop_last() =~= a + b.drop_last());
        assert((a + b).last() == b.last());
        assert(mounts_of(a + b) =~= mounts_of(a) + mounts_of(b));
    }
}

// ---- what holds of paths ----

proof fn lemma_pieces_len(b: Seq<u8>)
    ensures
        pieces(b).len() > 0,
    decreases b.len(),
{
    if b.len() > 0 {
        lemma_pieces_len(b.drop_last());
    }
}

proof fn lemma_pieces_at(a: Seq<u8>, b: Seq<u8>)
    ensures
        pieces(a + seq![47u8] + b) == pieces(a) + pieces(b),
    decreases b.len(),
{
    let whole = a + seq![47u8] + b;
    if b.len() == 0 {
        assert(whole.drop_last() =~= a);
        assert(pieces(a).push(Seq::empty()) =~= pieces(a) + pieces(b));
    } else {
        lemma_pieces_at(a, b.drop_last());
        lemma_pieces_len(b.drop_last());
        assert(whole.drop_last() =~= a + seq![47u8] + b.drop_last());
        let (x, y) = (pieces(a), pieces(b.drop_last()));
        assert((x + y).last() == y.last());
        assert(pieces(whole) =~= x + pieces(b));
    }
}

proof fn lemma_counting_starts(p: Seq<Seq<u8>>, q: Seq<Seq<u8>>)
    ensures
        counting(p).is_prefix_of(counting(p + q)),
    decreases q.len(),
{
    if q.len() == 0 {
        assert(p + q =~= p);
    } else {
        lemma_counting_starts(p, q.drop_last());
        assert((p + q).drop_last() =~= p + q.drop_last());
        let (x, y, z) = (counting(p), counting(p + q.drop_last()), counting(p + q));
        assert(z.take(x.len() as int) =~= y.take(x.len() as int));
    }
}

/// A path lies under itself and under every directory that it leads through, however
/// many slashes end that one; so under the root, if it is absolute. What lies under
/// something that lies under a third lies under that too.
pub proof fn law_paths_lie_under_what_they_lead_through(
    point: Seq<u8>,
    rest: Seq<u8>,
    path: Seq<u8>,
)
    ensures
        is_under(path, path),
        point.len() > 0 ==> is_under(point + seq![47u8] + rest, point),
        is_under(seq![47u8] + rest, seq![47u8]),
        is_under(rest, point) && is_under(path, rest) ==> is_under(path, point),
        !is_under(rest, seq![47u8]) || rest[0] == 47,
{
    let p = path_parts(path);
    assert(p.take(p.len() as int) =~= p);
    lemma_pieces_at(point, rest);
    lemma_counting_starts(pieces(point), pieces(rest));
    let longer = point + seq![47u8] + rest;
    if point.len() > 0 {
        assert(longer[0] == point[0]);
        lemma_parts_start(point, longer);
    }
    let none = Seq::<u8>::empty();
    lemma_pieces_at(none, none);
    assert(none + seq![47u8] + none =~= seq![47u8]);
    lemma_no_pieces();
    assert(path_parts(seq![47u8]) =~= seq![seq![47u8]]);
    let rooted = seq![47u8] + rest;
    assert(rooted[0] == 47);
    assert(path_parts(rooted).take(1) =~= seq![seq![47u8]]);
    if is_under(rest, point) && is_under(path, rest) {
        let (x, y, z) = (path_parts(point), path_parts(rest), path_parts(path));
        assert(z.take(x.len() as int) =~= y.take(x.len() as int));
    }
    if is_under(rest, seq![47u8]) {
        let y = path_parts(rest);
        assert(y.take(1)[0] == seq![47u8]);
        assert(y[0] == seq![47u8]);
        if !(rest.len() > 0 && rest[0] == 47) {
            assert(y =~= counting(pieces(rest)));
            lemma_pieces_clean(rest);
            lemma_counting_clean(pieces(rest));
            assert(y[0][0] == 47);
        }
    }
}

proof fn lemma_no_pieces()
    ensures
        counting(pieces(seq![47u8])) == Seq::<Seq<u8>>::empty(),
{
    let none = Seq::<u8>::empty();
    assert(seq![47u8].drop_last() =~= none);
    let p = seq![none].push(none);
    assert(pieces(none) =~= seq![none]);
    assert(seq![47u8].last() == 47);
    assert(pieces(seq![47u8]) =~= p);
    assert(p.drop_last() =~= seq![none]);
    assert(seq![none].drop_last() =~= Seq::<Seq<u8>>::empty());
    reveal_with_fuel(counting, 3);
}

proof fn lemma_parts_start(point: Seq<u8>, longer: Seq<u8>)
    requires
        point.len() > 0,
        longer.len() > 0,
        longer[0] == point[0],
        counting(pieces(point)).is_prefix_of(counting(pieces(longer))),
    ensures
        path_parts(point).is_prefix_of(path_parts(longer)),
{
    let (x, y) = (counting(pieces(point)), counting(pieces(longer)));
    let (u, v) = (path_parts(point), path_parts(longer));
    assert(y.take(x.len() as int) =~= x);
    assert(v.take(u.len() as int) =~= u) by {
        assert forall|k: int| 0 <= k < u.len() implies v[k] == u[k] by {
            let n = u.len() - x.len();
            if k >= n {
                assert(x[k - n] == y.take(x.len() as int)[k - n]);
            }
        }
    }
}

proof fn lemma_pieces_clean(b: Seq<u8>)
    ensures
        forall|i: int, j: int|
            0 <= i < pieces(b).len() && 0 <= j < pieces(b)[i].len() ==> (#[trigger] pieces(
                b,
            )[i][j]) != 47,
    decreases b.len(),
{
    if b.len() > 0 {
        lemma_pieces_clean(b.drop_last());
        lemma_pieces_len(b.drop_last());
    }
}

proof fn lemma_counting_clean(all: Seq<Seq<u8>>)
    requires
        forall|i: int, j: int|
            0 <= i < all.len() && 0 <= j < all[i].len() ==> (#[trigger] all[i][j]) != 47,
    ensures
        forall|i: int, j: int|
            0 <= i < counting(all).len() && 0 <= j < counting(all)[i].len() ==> (
            #[trigger] counting(all)[i][j]) != 47,
    decreases all.len(),
{
    if all.len() > 0 {
        let front = all.drop_last();
        assert forall|i: int, j: int| 0 <= i < front.len() && 0 <= j < front[i].len() implies (
        #[trigger] front[i][j]) != 47 by {
            assert(front[i][j] == all[i][j]);
        }
        lemma_counting_clean(front);
        let r = counting(all);
        assert forall|i: int, j: int| 0 <= i < r.len() && 0 <= j < r[i].len() implies (
        #[trigger] r[i][j]) != 47 by {
            if i < counting(front).len() {
                assert(r[i] == counting(front)[i]);
                assert(counting(front)[i][j] != 47);
            } else {
                assert(all[all.len() - 1][j] != 47);
            }
        }
    }
}

/// Entries of one directory with different names lie under none of each other.
pub proof fn law_neighbours_lie_apart(x: Seq<u8>, y: Seq<u8>)
    requires
        x.len() > 0,
        y.len() > 0,
        !x.contains(47),
        !y.contains(47),
        x != seq![46u8],
        y != seq![46u8],
    ensures
        is_under(seq![47u8] + x, seq![47u8] + y) <==> x == y,
        path_parts(seq![47u8] + x) == seq![seq![47u8], x],
{
    lemma_parts_of_entry(x);
    lemma_parts_of_entry(y);
    let (p, q) = (path_parts(seq![47u8] + x), path_parts(seq![47u8] + y));
    assert(p.take(2) =~= p);
    assert(p[1] == x && q[1] == y);
}

proof fn lemma_parts_of_entry(x: Seq<u8>)
    requires
        x.len() > 0,
        !x.contains(47),
        x != seq![46u8],
    ensures
        path_parts(seq![47u8] + x) == seq![seq![47u8], x],
{
    let none = Seq::<u8>::empty();
    lemma_pieces_at(none, x);
    assert(none + seq![47u8] + x =~= seq![47u8] + x);
    lemma_one_piece(x);
    assert(pieces(none) =~= seq![none]);
    let p = seq![none] + seq![x];
    assert(p.drop_last() =~= seq![none]);
    assert(seq![none].drop_last() =~= Seq::<Seq<u8>>::empty());
    reveal_with_fuel(counting, 3);
    assert(counting(p) =~= seq![x]);
    assert((seq![47u8] + x)[0] == 47);
    assert(seq![seq![47u8]] + seq![x] =~= seq![seq![47u8], x]);
}

proof fn lemma_one_piece(x: Seq<u8>)
    requires
        !x.contains(47),
    ensures
        pieces(x) == seq![x],
    decreases x.len(),
{
    if x.len() == 0 {
        assert(x =~= Seq::<u8>::empty());
    } else {
        let front = x.drop_last();
        assert(!front.contains(47)) by {
            if front.contains(47) {
                let k = choose|k: int| 0 <= k < front.len() && front[k] == 47;
                assert(x[k] == 47);
            }
        }
        lemma_one_piece(front);
        assert(x[x.len() - 1] == x.last());
        assert(front.push(x.last()) =~= x);
        assert(pieces(x) =~= seq![x]);
    }
}

} // verus!
