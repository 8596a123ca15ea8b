//! What the btrfs ioctls that btdua needs are given and answer. Kernel structs
//! are encoded and decoded by byte offset so nothing depends on Rust layout.

pub mod formats;
pub mod laws;
pub mod ops;
pub mod search;

use vstd::prelude::*;

use crate::text::{concat, owned, signed_decimal, signed_decimal_text};

verus! {

// ---- request numbers ----

pub const MAGIC: u64 = 0x94;

pub const IOC_W: u64 = 1;

pub const IOC_R: u64 = 2;

pub const IOC_RW: u64 = 3;

/// The number of a request: direction, size of the argument, magic number of
/// btrfs, and number within btrfs, from the top bits down.
pub open spec fn request(dir: u64, nr: u64, size: u64) -> u64 {
    (dir << 30) | (size << 16) | (0x94u64 << 8) | nr
}

/// The number of a request.
pub fn ioc(dir: u64, nr: u64, size: u64) -> (r: u64)
    ensures
        r == request(dir, nr, size),
{
    (dir << 30) | (size << 16) | (MAGIC << 8) | nr
}

pub const IOC_SNAP_DESTROY: u64 = (1 << 30) | (4096 << 16) | (0x94 << 8) | 15;

pub const IOC_TREE_SEARCH_V2: u64 = (3 << 30) | (112 << 16) | (0x94 << 8) | 17;

pub const IOC_INO_LOOKUP: u64 = (3 << 30) | (4096 << 16) | (0x94 << 8) | 18;

pub const IOC_FS_INFO: u64 = (2 << 30) | (1024 << 16) | (0x94 << 8) | 31;

pub const IOC_INO_PATHS: u64 = (3 << 30) | (56 << 16) | (0x94 << 8) | 35;

pub const IOC_LOGICAL_INO_V2: u64 = (3 << 30) | (56 << 16) | (0x94 << 8) | 59;

/// Direction, size, magic number and number within btrfs can be read off a
/// request number.
pub proof fn law_request_fields(dir: u64, nr: u64, size: u64)
    requires
        dir < 4,
        nr < 0x100,
        size < 0x4000,
    ensures
        request(dir, nr, size) >> 30 == dir,
        (request(dir, nr, size) >> 16) & 0x3fff == size,
        (request(dir, nr, size) >> 8) & 0xff == MAGIC,
        request(dir, nr, size) & 0xff == nr,
{
    assert(((dir << 30) | (size << 16) | (0x94u64 << 8) | nr) >> 30 == dir && (((dir << 30) | (size
        << 16) | (0x94u64 << 8) | nr) >> 16) & 0x3fff == size && (((dir << 30) | (size << 16) | (
    0x94u64 << 8) | nr) >> 8) & 0xff == 0x94 && ((dir << 30) | (size << 16) | (0x94u64 << 8) | nr)
        & 0xff == nr) by (bit_vector)
        requires
            dir < 4,
            nr < 0x100,
            size < 0x4000,
    ;
}

/// The requests by direction, number within btrfs, and size of the argument.
pub proof fn law_requests()
    ensures
        IOC_SNAP_DESTROY == request(IOC_W, 15, 4096) == 0x5000_940F,
        IOC_TREE_SEARCH_V2 == request(IOC_RW, 17, 112) == 0xC070_9411,
        IOC_INO_LOOKUP == request(IOC_RW, 18, 4096) == 0xD000_9412,
        IOC_FS_INFO == request(IOC_R, 31, 1024) == 0x8400_941F,
        IOC_INO_PATHS == request(IOC_RW, 35, 56) == 0xC038_9423,
        IOC_LOGICAL_INO_V2 == request(IOC_RW, 59, 56) == 0xC038_943B,
{
    assert(((1u64 << 30) | (4096u64 << 16) | (0x94u64 << 8) | 15u64) == 0x5000_940F) by (bit_vector);
    assert(((3u64 << 30) | (112u64 << 16) | (0x94u64 << 8) | 17u64) == 0xC070_9411) by (bit_vector);
    assert(((3u64 << 30) | (4096u64 << 16) | (0x94u64 << 8) | 18u64) == 0xD000_9412) by (bit_vector);
    assert(((2u64 << 30) | (1024u64 << 16) | (0x94u64 << 8) | 31u64) == 0x8400_941F) by (bit_vector);
    assert(((3u64 << 30) | (56u64 << 16) | (0x94u64 << 8) | 35u64) == 0xC038_9423) by (bit_vector);
    assert(((3u64 << 30) | (56u64 << 16) | (0x94u64 << 8) | 59u64) == 0xC038_943B) by (bit_vector);
}

// ---- little-endian numbers ----

/// 256 to the power of `n`.
pub open spec fn byte_weight(n: nat) -> nat
    decreases n,
{
    if n == 0 {
        1
    } else {
        256 * byte_weight((n - 1) as nat)
    }
}

/// The number in the `n` bytes from `o` on, the lowest first.
pub open spec fn le(b: Seq<u8>, o: int, n: nat) -> nat
    decreases n,
{
    if n == 0 {
        0
    } else {
        b[o] as nat + 256 * le(b, o + 1, (n - 1) as nat)
    }
}

/// The bytes with `v` in the `n` from `o` on, the lowest first.
pub open spec fn with_le(b: Seq<u8>, o: int, n: nat, v: nat) -> Seq<u8>
    decreases n,
{
    if n == 0 {
        b
    } else {
        with_le(b.update(o, (v % 256) as u8), o + 1, (n - 1) as nat, v / 256)
    }
}

/// A number that is written over some bytes is read back from there, and all
/// other bytes stay as they are.
pub proof fn law_written_is_read(b: Seq<u8>, o: int, n: nat, v: nat)
    requires
        0 <= o,
        o + n <= b.len(),
        v < byte_weight(n),
    ensures
        le(with_le(b, o, n, v), o, n) == v,
        with_le(b, o, n, v).len() == b.len(),
        forall|i: int|
            0 <= i < b.len() && !(o <= i < o + n) ==> #[trigger] with_le(b, o, n, v)[i] == b[i],
    decreases n,
{
    if n > 0 {
        let c = b.update(o, (v % 256) as u8);
        law_written_is_read(c, o + 1, (n - 1) as nat, v / 256);
        let d = with_le(b, o, n, v);
        assert(d[o] == c[o]);
        assert forall|i: int| 0 <= i < b.len() && !(o <= i < o + n) implies #[trigger] d[i]
            == b[i] by {
            assert(d[i] == c[i]);
        }
    }
}

/// Writing keeps the number of bytes.
pub proof fn lemma_with_le_len(b: Seq<u8>, o: int, n: nat, v: nat)
    requires
        0 <= o,
        o + n <= b.len(),
    ensures
        with_le(b, o, n, v).len() == b.len(),
    decreases n,
{
    if n > 0 {
        lemma_with_le_len(b.update(o, (v % 256) as u8), o + 1, (n - 1) as nat, v / 256);
    }
}

/// Reading depends on the bytes that are read alone.
pub proof fn lemma_le_same(b: Seq<u8>, c: Seq<u8>, o: int, n: nat)
    requires
        forall|i: int| o <= i < o + n ==> #[trigger] b[i] == c[i],
    ensures
        le(b, o, n) == le(c, o, n),
    decreases n,
{
    if n > 0 {
        assert(b[o] == c[o]);
        lemma_le_same(b, c, o + 1, (n - 1) as nat);
    }
}

/// A number in `n` bytes has no more than that.
pub proof fn lemma_le_bound(b: Seq<u8>, o: int, n: nat)
    ensures
        le(b, o, n) < byte_weight(n),
        byte_weight(4) == 0x1_0000_0000,
        byte_weight(8) == 0x1_0000_0000_0000_0000,
    decreases n,
{
    reveal_with_fuel(byte_weight, 9);
    if n > 0 {
        lemma_le_bound(b, o + 1, (n - 1) as nat);
    }
}

pub fn rd_u16(b: &[u8], o: usize) -> (r: u16)
    requires
        o + 2 <= b@.len(),
    ensures
        r == le(b@, o as int, 2),
{
    proof {
        reveal_with_fuel(le, 3);
    }
    b[o] as u16 + 0x100 * b[o + 1] as u16
}

pub fn rd_u32(b: &[u8], o: usize) -> (r: u32)
    requires
        o + 4 <= b@.len(),
    ensures
        r == le(b@, o as int, 4),
{
    proof {
        reveal_with_fuel(le, 5);
    }
    b[o] as u32 + 0x100 * b[o + 1] as u32 + 0x1_0000 * b[o + 2] as u32 + 0x100_0000 * b[o
        + 3] as u32
}

pub fn rd_u64(b: &[u8], o: usize) -> (r: u64)
    requires
        o + 8 <= b@.len(),
    ensures
        r == le(b@, o as int, 8),
{
    proof {
        reveal_with_fuel(le, 9);
    }
    b[o] as u64 + 0x100 * b[o + 1] as u64 + 0x1_0000 * b[o + 2] as u64 + 0x100_0000 * b[o
        + 3] as u64 + 0x1_0000_0000 * b[o + 4] as u64 + 0x100_0000_0000 * b[o + 5] as u64
        + 0x1_0000_0000_0000 * b[o + 6] as u64 + 0x100_0000_0000_0000 * b[o + 7] as u64
}

pub fn wr_u32(b: &mut [u8], o: usize, v: u32)
    requires
        o + 4 <= old(b)@.len(),
    ensures
        final(b)@ == with_le(old(b)@, o as int, 4, v as nat),
{
    proof {
        reveal_with_fuel(with_le, 5);
    }
    b[o] = (v % 0x100) as u8;
    b[o + 1] = (v / 0x100 % 0x100) as u8;
    b[o + 2] = (v / 0x100 / 0x100 % 0x100) as u8;
    b[o + 3] = (v / 0x100 / 0x100 / 0x100 % 0x100) as u8;
}

pub fn wr_u64(b: &mut [u8], o: usize, v: u64)
    requires
        o + 8 <= old(b)@.len(),
    ensures
        final(b)@ == with_le(old(b)@, o as int, 8, v as nat),
{
    let ghost was = b@;
    let low: u32 = (v % 0x1_0000_0000) as u32;
    let high: u32 = (v / 0x1_0000_0000) as u32;
    let len = b.len();
    wr_u32(b, o, low);
    proof {
        lemma_with_le_len(was, o as int, 4, low as nat);
    }
    wr_u32(b, o + 4, high);
    proof {
        lemma_with_le_halves(was, o as int, v);
    }
}

/// The lower half of a number has its four lowest bytes, and the upper half the rest.
#[verifier::spinoff_prover]
proof fn lemma_halves(n: nat, low: nat, high: nat)
    requires
        n == low + 0x1_0000_0000 * high,
        low < 0x1_0000_0000,
    ensures
        low % 256 == n % 256,
        low / 256 % 256 == n / 256 % 256,
        low / 256 / 256 % 256 == n / 256 / 256 % 256,
        low / 256 / 256 / 256 % 256 == n / 256 / 256 / 256 % 256,
        n / 256 / 256 / 256 / 256 == high,
{
    assert(n / 256 == low / 256 + 0x100_0000 * high);
    assert(n / 256 / 256 == low / 256 / 256 + 0x1_0000 * high);
    assert(n / 256 / 256 / 256 == low / 256 / 256 / 256 + 0x100 * high);
}

#[verifier::spinoff_prover]
proof fn lemma_with_le_halves(b: Seq<u8>, o: int, v: u64)
    ensures
        with_le(b, o, 8, v as nat) == with_le(
            with_le(b, o, 4, (v % 0x1_0000_0000) as nat),
            o + 4,
            4,
            (v / 0x1_0000_0000) as nat,
        ),
{
    let n = v as nat;
    let low = (v % 0x1_0000_0000) as nat;
    let high = (v / 0x1_0000_0000) as nat;
    lemma_halves(n, low, high);
    lemma_with_le_four(b, o, 8, n);
    lemma_with_le_four(b, o, 4, low);
}

/// Writing starts with the four lowest bytes.
#[verifier::spinoff_prover]
proof fn lemma_with_le_four(b: Seq<u8>, o: int, n: nat, v: nat)
    requires
        n >= 4,
    ensures
        with_le(b, o, n, v) == with_le(
            b.update(o, (v % 256) as u8).update(o + 1, (v / 256 % 256) as u8).update(
                o + 2,
                (v / 256 / 256 % 256) as u8,
            ).update(o + 3, (v / 256 / 256 / 256 % 256) as u8),
            o + 4,
            (n - 4) as nat,
            v / 256 / 256 / 256 / 256,
        ),
{
    let (b1, v1) = (b.update(o, (v % 256) as u8), v / 256);
    let (b2, v2) = (b1.update(o + 1, (v1 % 256) as u8), v1 / 256);
    let (b3, v3) = (b2.update(o + 2, (v2 % 256) as u8), v2 / 256);
    assert(with_le(b, o, n, v) == with_le(b1, o + 1, (n - 1) as nat, v1));
    assert(with_le(b1, o + 1, (n - 1) as nat, v1) == with_le(b2, o + 2, (n - 2) as nat, v2));
    assert(with_le(b2, o + 2, (n - 2) as nat, v2) == with_le(b3, o + 3, (n - 3) as nat, v3));
}

// ---- error numbers ----

/// The error numbers that have a name.
#[derive(Clone, Copy, Debug)]
pub struct Errnos {
    pub eperm: i32,
    pub enoent: i32,
    pub eio: i32,
    pub enomem: i32,
    pub eacces: i32,
    pub einval: i32,
    pub enotdir: i32,
    pub eoverflow: i32,
    pub enametoolong: i32,
    pub eloop: i32,
    pub estale: i32,
    pub euclean: i32,
}

/// Whether the numbers are those of a Linux. Seven are the same on every one; the
/// others come in three sets, by architecture.
pub open spec fn is_linux(k: Errnos) -> bool {
    &&& k.eperm == 1
    &&& k.enoent == 2
    &&& k.eio == 5
    &&& k.enomem == 12
    &&& k.eacces == 13
    &&& k.enotdir == 20
    &&& k.einval == 22
    &&& {
        ||| overflow_to_unclean(k, 75, 36, 40, 116, 117)
        ||| overflow_to_unclean(k, 79, 78, 90, 151, 135)
        ||| overflow_to_unclean(k, 92, 63, 62, 70, 117)
    }
}

/// Whether the numbers that differ between architectures are these.
pub open spec fn overflow_to_unclean(
    k: Errnos,
    eoverflow: i32,
    enametoolong: i32,
    eloop: i32,
    estale: i32,
    euclean: i32,
) -> bool {
    &&& k.eoverflow == eoverflow
    &&& k.enametoolong == enametoolong
    &&& k.eloop == eloop
    &&& k.estale == estale
    &&& k.euclean == euclean
}

/// The error numbers of [`libc`] on Linux. Those that are the same everywhere are
/// stated; of those that differ between architectures it is stated that they are one
/// of the three sets there are, and not said which.
#[verifier::external_body]
pub(crate) fn errnos() -> (r: Errnos)
    ensures
        is_linux(r),
{
    Errnos {
        eperm: libc::EPERM,
        enoent: libc::ENOENT,
        eio: libc::EIO,
        enomem: libc::ENOMEM,
        eacces: libc::EACCES,
        einval: libc::EINVAL,
        enotdir: libc::ENOTDIR,
        eoverflow: libc::EOVERFLOW,
        enametoolong: libc::ENAMETOOLONG,
        eloop: libc::ELOOP,
        estale: libc::ESTALE,
        euclean: libc::EUCLEAN,
    }
}

/// What an error number is called.
pub open spec fn error_name(k: Errnos, n: i32) -> Seq<char> {
    if n == k.eperm {
        "EPERM"@
    } else if n == k.enoent {
        "ENOENT"@
    } else if n == k.eio {
        "EIO"@
    } else if n == k.enomem {
        "ENOMEM"@
    } else if n == k.eacces {
        "EACCES"@
    } else if n == k.einval {
        "EINVAL"@
    } else if n == k.enotdir {
        "ENOTDIR"@
    } else if n == k.eoverflow {
        "EOVERFLOW"@
    } else if n == k.enametoolong {
        "ENAMETOOLONG"@
    } else if n == k.eloop {
        "ELOOP"@
    } else if n == k.estale {
        "ESTALE"@
    } else if n == k.euclean {
        "EUCLEAN"@
    } else {
        "errno "@ + signed_decimal(n as int)
    }
}

/// What an error is called: by its number, or by its text if it has none.
pub open spec fn error_text(k: Errnos, code: Option<i32>, text: Seq<char>) -> Seq<char> {
    match code {
        Some(n) => error_name(k, n),
        None => text,
    }
}

/// What an error is called where the numbers are `k`.
pub fn errno_name_in(k: &Errnos, code: Option<i32>, text: &str) -> (r: String)
    ensures
        r@ == error_text(*k, code, text@),
{
    let n = match code {
        Some(n) => n,
        None => {
            return owned(text);
        },
    };
    let name = if n == k.eperm {
        "EPERM"
    } else if n == k.enoent {
        "ENOENT"
    } else if n == k.eio {
        "EIO"
    } else if n == k.enomem {
        "ENOMEM"
    } else if n == k.eacces {
        "EACCES"
    } else if n == k.einval {
        "EINVAL"
    } else if n == k.enotdir {
        "ENOTDIR"
    } else if n == k.eoverflow {
        "EOVERFLOW"
    } else if n == k.enametoolong {
        "ENAMETOOLONG"
    } else if n == k.eloop {
        "ELOOP"
    } else if n == k.estale {
        "ESTALE"
    } else if n == k.euclean {
        "EUCLEAN"
    } else {
        return concat("errno ", signed_decimal_text(n).as_str());
    };
    owned(name)
}

/// What an error is called: its number in the operating system if it has one,
/// else its text.
pub fn errno_name(code: Option<i32>, text: &str) -> (r: String)
    ensures
        exists|k: Errnos| is_linux(k) && r@ == #[trigger] error_text(k, code, text@),
{
    let k = errnos();
    errno_name_in(&k, code, text)
}

/// Whether an error is one for want of permission.
pub fn is_permission_error(code: Option<i32>) -> (r: bool)
    ensures
        r == (code == Some(1i32) || code == Some(13i32)),
{
    let k = errnos();
    match code {
        Some(n) => n == k.eperm || n == k.eacces,
        None => false,
    }
}

/// Whether an error says that there is no such thing.
pub fn is_not_found(code: Option<i32>) -> (r: bool)
    ensures
        r == (code == Some(2i32)),
{
    let k = errnos();
    match code {
        Some(n) => n == k.enoent,
        None => false,
    }
}

} // verus!
