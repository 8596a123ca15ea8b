//! SplitMix64: tiny, fast and good enough for picking sample offsets.

use vstd::prelude::*;

verus! {

pub struct Rng(u64);

/// The state after one step.
pub open spec fn stepped(state: u64) -> u64 {
    state.wrapping_add(0x9E37_79B9_7F4A_7C15)
}

/// The number that a state stands for.
pub open spec fn scrambled(state: u64) -> u64 {
    let a = (state ^ (state >> 30)).wrapping_mul(0xBF58_476D_1CE4_E5B9);
    let b = (a ^ (a >> 27)).wrapping_mul(0x94D0_49BB_1331_11EB);
    b ^ (b >> 31)
}

/// `x`, uniform over all 64-bit numbers, scaled down to `[0, n)`.
pub open spec fn scaled(x: u64, n: u64) -> nat {
    (x as nat * n as nat) / 0x1_0000_0000_0000_0000
}

impl View for Rng {
    type V = u64;

    closed spec fn view(&self) -> u64 {
        self.0
    }
}

impl Rng {
    pub fn new(seed: u64) -> (r: Self)
        ensures
            r@ == seed,
    {
        Rng(seed)
    }

    pub fn next_u64(&mut self) -> (r: u64)
        ensures
            final(self)@ == stepped(old(self)@),
            r == scrambled(final(self)@),
    {
        self.0 = self.0.wrapping_add(0x9E37_79B9_7F4A_7C15);
        let mut z: u64 = self.0;
        z = (z ^ (z >> 30)).wrapping_mul(0xBF58_476D_1CE4_E5B9);
        z = (z ^ (z >> 27)).wrapping_mul(0x94D0_49BB_1331_11EB);
        z ^ (z >> 31)
    }

    /// Uniform in `[0, n)` via multiply-shift; 0 where that is empty.
    pub fn below(&mut self, n: u64) -> (r: u64)
        ensures
            final(self)@ == stepped(old(self)@),
            r == scaled(scrambled(final(self)@), n),
            n > 0 ==> r < n,
    {
        let x = self.next_u64();
        proof {
            law_scaled_is_below(x, n);
        }
        assert(x as u128 * n as u128 <= u128::MAX) by (nonlinear_arith)
            requires
                x <= u64::MAX,
                n <= u64::MAX,
        ;
        let p: u128 = x as u128 * n as u128;
        assert(p >> 64 == p / 0x1_0000_0000_0000_0000u128) by (bit_vector);
        (p >> 64) as u64
    }
}

/// What is scaled to `[0, n)` lies there, and larger numbers are not scaled to
/// smaller ones.
pub proof fn law_scaled_is_below(x: u64, n: u64)
    ensures
        n > 0 ==> scaled(x, n) < n,
        n == 0 ==> scaled(x, n) == 0,
        forall|y: u64| x <= y ==> scaled(x, n) <= #[trigger] scaled(y, n),
{
    let m: int = 0x1_0000_0000_0000_0000;
    assert(n > 0 ==> (x as int * n as int) / m < n) by (nonlinear_arith)
        requires
            0 <= x < m,
            0 <= n,
            m == 0x1_0000_0000_0000_0000,
    ;
    assert forall|y: u64| x <= y implies scaled(x, n) <= #[trigger] scaled(y, n) by {
        assert((x as int * n as int) / m <= (y as int * n as int) / m) by (nonlinear_arith)
            requires
                0 <= x <= y,
                0 <= n,
                m == 0x1_0000_0000_0000_0000,
        ;
    }
}

/// Every number below `n` comes out of scaling.
pub proof fn law_scaled_reaches_all(n: u64, r: u64) -> (x: u64)
    requires
        r < n,
    ensures
        scaled(x, n) == r,
{
    let m: int = 0x1_0000_0000_0000_0000;
    // The least number whose product with `n` reaches `r * m`.
    let q = (r * m + n - 1) / (n as int);
    assert(r * m <= q * n < r * m + n) by (nonlinear_arith)
        requires
            q == (r * m + n - 1) / (n as int),
            n > 0,
    ;
    assert(0 <= q < m) by (nonlinear_arith)
        requires
            r * m <= q * n < r * m + n,
            0 <= r < n,
            n < m,
    ;
    assert((q * n) / m == r) by (nonlinear_arith)
        requires
            r * m <= q * n < r * m + n,
            0 < n < m,
            m == 0x1_0000_0000_0000_0000,
    ;
    q as u64
}

/// The seed from a time in nanoseconds and a process number.
pub open spec fn mixed(nanos: u64, pid: u32) -> u64 {
    nanos ^ ((pid as u64) << 32)
}

/// The seed from a time in nanoseconds and a process number.
pub fn mix_seed(nanos: u64, pid: u32) -> (r: u64)
    ensures
        r == mixed(nanos, pid),
{
    nanos ^ ((pid as u64) << 32)
}

/// The seed of the sampler thread number `i`.
pub open spec fn parted(seed: u64, i: u64) -> u64 {
    seed ^ i.wrapping_mul(0xA24B_AED4_963E_E407)
}

/// The seed of the sampler thread number `i`.
pub fn worker_seed(seed: u64, i: u64) -> (r: u64)
    ensures
        r == parted(seed, i),
{
    seed ^ i.wrapping_mul(0xA24B_AED4_963E_E407)
}

/// Multiplying by a number that has an inverse tells all numbers apart.
proof fn lemma_products_differ(x: u64, y: u64, c: u64, inverse: u64, over: int)
    requires
        c * inverse == 1 + over * 0x1_0000_0000_0000_0000,
        x.wrapping_mul(c) == y.wrapping_mul(c),
    ensures
        x == y,
{
    let m: int = 0x1_0000_0000_0000_0000;
    let (p, q) = (x * c, y * c);
    assert(p % m == q % m);
    let k = p / m - q / m;
    assert(p - q == k * m) by (nonlinear_arith)
        requires
            p % m == q % m,
            k == p / m - q / m,
            m == 0x1_0000_0000_0000_0000,
    ;
    let d = x - y;
    assert(d * c == k * m) by (nonlinear_arith)
        requires
            p == x * c,
            q == y * c,
            p - q == k * m,
            d == x - y,
    ;
    assert(d * (c * inverse) == (k * inverse) * m) by (nonlinear_arith)
        requires
            d * c == k * m,
    ;
    let n = k * inverse - d * over;
    assert(d == n * m) by (nonlinear_arith)
        requires
            d * (c * inverse) == (k * inverse) * m,
            c * inverse == 1 + over * m,
            n == k * inverse - d * over,
    ;
    assert(n == 0) by (nonlinear_arith)
        requires
            d == n * m,
            -m < d < m,
            m > 0,
    ;
}

/// No two states stand for the same number, nor lead to the same state: so every number
/// comes out as often as every other.
pub proof fn law_numbers_come_out_evenly(x: u64, y: u64)
    ensures
        scrambled(x) == scrambled(y) ==> x == y,
        stepped(x) == stepped(y) ==> x == y,
        stepped(x) != x,
{
    let a = (x ^ (x >> 30)).wrapping_mul(0xBF58_476D_1CE4_E5B9);
    let b = (y ^ (y >> 30)).wrapping_mul(0xBF58_476D_1CE4_E5B9);
    if scrambled(x) == scrambled(y) {
        let (u, v) = (
            (a ^ (a >> 27)).wrapping_mul(0x94D0_49BB_1331_11EB),
            (b ^ (b >> 27)).wrapping_mul(0x94D0_49BB_1331_11EB),
        );
        assert(u ^ (u >> 31) == v ^ (v >> 31) ==> u == v) by (bit_vector);
        lemma_products_differ(
            a ^ (a >> 27),
            b ^ (b >> 27),
            0x94D0_49BB_1331_11EB,
            0x3196_42B2_D24D_8EC3,
            0x1CD3_36ED_A85F_1453,
        );
        assert(a ^ (a >> 27) == b ^ (b >> 27) ==> a == b) by (bit_vector);
        lemma_products_differ(
            x ^ (x >> 30),
            y ^ (y >> 30),
            0xBF58_476D_1CE4_E5B9,
            0x96DE_1B17_3F11_9089,
            0x70C3_BCA7_8F27_F46C,
        );
        assert(x ^ (x >> 30) == y ^ (y >> 30) ==> x == y) by (bit_vector);
    }
}

/// What is scaled keeps its share: it is the whole part of `n` times the number over all
/// numbers.
pub proof fn law_scaled_keeps_its_share(x: u64, n: u64)
    ensures
        scaled(x, n) * 0x1_0000_0000_0000_0000 <= x * n,
        x * n < (scaled(x, n) + 1) * 0x1_0000_0000_0000_0000,
{
}

/// Sampler threads of one session start from different seeds, the first one from the
/// session's own; and so do sessions of different processes at one time.
pub proof fn law_seeds_differ(seed: u64, i: u64, j: u64, pid: u32, other: u32)
    ensures
        parted(seed, 0) == seed,
        parted(seed, i) == parted(seed, j) ==> i == j,
        mixed(seed, pid) == mixed(seed, other) ==> pid == other,
        mixed(seed, 0) == seed,
{
    assert(0u64.wrapping_mul(0xA24B_AED4_963E_E407) == 0);
    assert(seed ^ 0u64 == seed) by (bit_vector);
    let (a, b) = (
        i.wrapping_mul(0xA24B_AED4_963E_E407),
        j.wrapping_mul(0xA24B_AED4_963E_E407),
    );
    assert(seed ^ a == seed ^ b ==> a == b) by (bit_vector);
    if parted(seed, i) == parted(seed, j) {
        lemma_products_differ(
            i,
            j,
            0xA24B_AED4_963E_E407,
            0x8B95_1323_F693_49B7,
            0x587D_9A1C_99F4_60D3,
        );
    }
    assert(seed ^ ((pid as u64) << 32) == seed ^ ((other as u64) << 32) ==> pid == other)
        by (bit_vector);
    assert(seed ^ ((0u32 as u64) << 32) == seed) by (bit_vector);
}

} // verus!
