//! Formatting byte sizes and counts.

use vstd::prelude::*;

use crate::text::{decimal, digit, push_decimal};

verus! {

// ---- sizes ----

/// The whole number nearest to `n / d`, the even one of two.
pub open spec fn nearest(n: nat, d: nat) -> nat {
    let (q, r) = (n / d, n % d);
    if 2 * r < d || (2 * r == d && q % 2 == 0) {
        q
    } else {
        q + 1
    }
}

/// How far apart the 53-bit numbers around `b` lie.
pub open spec fn spacing(b: nat) -> nat
    decreases b,
{
    if b < 0x20_0000_0000_0000 {
        1
    } else {
        2 * spacing(b / 2)
    }
}

/// `b` to 53 significant bits.
pub open spec fn rounded(b: nat) -> nat {
    nearest(b, spacing(b)) * spacing(b)
}

/// How many bytes one of a unit is: 1024 for the first, then as many of the
/// unit before.
pub open spec fn unit_bytes(unit: nat) -> nat
    decreases unit,
{
    if unit == 0 {
        1024
    } else {
        1024 * unit_bytes((unit - 1) as nat)
    }
}

/// The largest unit of which `b` makes at least one, up to `unit`.
pub open spec fn unit_of(b: nat, unit: nat) -> nat
    decreases unit,
{
    if unit == 0 || b >= unit_bytes(unit) {
        unit
    } else {
        unit_of(b, (unit - 1) as nat)
    }
}

/// What the units are called.
pub open spec fn unit_name(unit: nat) -> Seq<char> {
    if unit == 0 {
        "KiB"@
    } else if unit == 1 {
        "MiB"@
    } else if unit == 2 {
        "GiB"@
    } else if unit == 3 {
        "TiB"@
    } else if unit == 4 {
        "PiB"@
    } else {
        "EiB"@
    }
}

/// A number of tenths with one digit after the point.
pub open spec fn tenths_text(n: nat) -> Seq<char> {
    decimal(n / 10) + seq!['.', digit(n % 10)]
}

/// A size for people: bytes below 1024, else one digit after the point.
pub open spec fn size_text(b: nat) -> Seq<char> {
    if b < 1024 {
        decimal(b) + " B"@
    } else {
        let v = rounded(b);
        let unit = unit_of(v, 5);
        tenths_text(nearest(10 * v, unit_bytes(unit))) + " "@ + unit_name(unit)
    }
}

proof fn lemma_spacing(b: nat)
    requires
        b <= u64::MAX,
    ensures
        1 <= spacing(b) < 4096,
        b >= 0x20_0000_0000_0000 ==> spacing(b) * 0x10_0000_0000_0000 <= b,
        b < spacing(b) * 0x20_0000_0000_0000,
    decreases b,
{
    if b >= 0x20_0000_0000_0000 {
        lemma_spacing(b / 2);
    }
}

proof fn lemma_nearest(n: nat, d: nat)
    requires
        d > 0,
    ensures
        nearest(n, d) <= n / d + 1,
        nearest(n, d) * d <= n + d,
{
    let q = n / d;
    assert(q * d <= n) by (nonlinear_arith)
        requires
            q == n / d,
            d > 0,
    ;
    assert((q + 1) * d == q * d + d) by (nonlinear_arith);
    assert(nearest(n, d) * d <= (q + 1) * d) by (nonlinear_arith)
        requires
            nearest(n, d) <= q + 1,
            d > 0,
    ;
}

fn nearest_of(n: u128, d: u128) -> (r: u128)
    requires
        0 < d <= 0x1000_0000_0000_0000,
        n < 0x1_0000_0000_0000_0000_0000,
    ensures
        r == nearest(n as nat, d as nat),
{
    let q = n / d;
    let r = n % d;
    if 2 * r < d || (2 * r == d && q % 2 == 0) {
        q
    } else {
        assert(q <= n) by (nonlinear_arith)
            requires
                q == n / d,
                d > 0,
        ;
        q + 1
    }
}

fn spacing_of(b: u64) -> (r: u64)
    ensures
        r == spacing(b as nat),
{
    let mut left = b;
    let mut s: u64 = 1;
    proof {
        lemma_spacing(b as nat);
    }
    while left >= 0x20_0000_0000_0000
        invariant
            s * spacing(left as nat) == spacing(b as nat),
            spacing(b as nat) < 4096,
            s >= 1,
        decreases left,
    {
        proof {
            lemma_spacing((left / 2) as nat);
            assert(s * (2 * spacing((left / 2) as nat)) == (2 * s) * spacing((left / 2) as nat))
                by (nonlinear_arith);
            assert(2 * s < 4096) by (nonlinear_arith)
                requires
                    (2 * s) * spacing((left / 2) as nat) < 4096,
                    spacing((left / 2) as nat) >= 1,
            ;
        }
        s = 2 * s;
        left = left / 2;
    }
    assert(spacing(left as nat) == 1);
    assert(s * 1 == s);
    s
}

proof fn lemma_unit_bytes()
    ensures
        unit_bytes(0) == 0x400,
        unit_bytes(1) == 0x10_0000,
        unit_bytes(2) == 0x4000_0000,
        unit_bytes(3) == 0x100_0000_0000,
        unit_bytes(4) == 0x4_0000_0000_0000,
        unit_bytes(5) == 0x1000_0000_0000_0000,
{
    reveal_with_fuel(unit_bytes, 6);
}

fn name_of_unit(unit: usize) -> (r: &'static str)
    ensures
        r@ == unit_name(unit as nat),
{
    match unit {
        0 => "KiB",
        1 => "MiB",
        2 => "GiB",
        3 => "TiB",
        4 => "PiB",
        _ => "EiB",
    }
}

pub fn fmt_size(b: u64) -> (r: String)
    ensures
        r@ == size_text(b as nat),
{
    let mut out = String::new();
    if b < 1024 {
        push_decimal(&mut out, b);
        out.append(" B");
        return out;
    }
    let s = spacing_of(b);
    proof {
        lemma_spacing(b as nat);
        lemma_nearest(b as nat, s as nat);
        lemma_unit_bytes();
    }
    let v: u128 = nearest_of(b as u128, s as u128) * s as u128;
    let mut unit: usize = 5;
    let mut bytes: u128 = 0x1000_0000_0000_0000;
    while unit > 0 && v < bytes
        invariant
            unit <= 5,
            bytes == unit_bytes(unit as nat),
            unit_of(v as nat, unit as nat) == unit_of(v as nat, 5),
            0x400 <= bytes <= 0x1000_0000_0000_0000,
        decreases unit,
    {
        proof {
            lemma_unit_bytes();
        }
        unit -= 1;
        bytes = bytes / 1024;
    }
    proof {
        lemma_unit_bytes();
        lemma_nearest(10 * v as nat, bytes as nat);
    }
    let tenths = nearest_of(10 * v, bytes);
    assert(unit_of(v as nat, 5) == unit);
    assert(tenths <= 10 * v / 0x400 + 1) by (nonlinear_arith)
        requires
            tenths <= (10 * v) as nat / bytes as nat + 1,
            bytes >= 0x400,
            v >= 0,
    ;
    push_decimal(&mut out, (tenths / 10) as u64);
    out.push('.');
    out.push((48 + (tenths % 10) as u8) as char);
    out.append(" ");
    out.append(name_of_unit(unit));
    assert(v == rounded(b as nat));
    assert(out@ =~= size_text(b as nat));
    out
}

// ---- counts ----

/// The last three digits of `n`.
pub open spec fn three_digits(n: nat) -> Seq<char> {
    seq![digit(n / 100 % 10), digit(n / 10 % 10), digit(n % 10)]
}

/// `n` in digits, with a comma before every third one from the right.
pub open spec fn count_text(n: nat) -> Seq<char>
    decreases n,
{
    if n < 1000 {
        decimal(n)
    } else {
        count_text(n / 1000) + seq![','] + three_digits(n)
    }
}

/// `s` without commas.
pub open spec fn uncommaed(s: Seq<char>) -> Seq<char>
    decreases s.len(),
{
    if s.len() == 0 {
        s
    } else if s.last() == ',' {
        uncommaed(s.drop_last())
    } else {
        uncommaed(s.drop_last()).push(s.last())
    }
}

proof fn lemma_uncommaed_push(s: Seq<char>, c: char)
    ensures
        uncommaed(s.push(c)) == (if c == ',' {
            uncommaed(s)
        } else {
            uncommaed(s).push(c)
        }),
{
    assert(s.push(c).drop_last() =~= s);
}

proof fn lemma_digits_have_no_comma(n: nat)
    ensures
        uncommaed(decimal(n)) == decimal(n),
    decreases n,
{
    if n < 10 {
        let empty = Seq::<char>::empty();
        lemma_uncommaed_push(empty, digit(n));
        assert(empty.push(digit(n)) =~= decimal(n));
    } else {
        lemma_digits_have_no_comma(n / 10);
        lemma_uncommaed_push(decimal(n / 10), digit(n % 10));
    }
}

/// Commas are all that a written count adds to its digits.
pub proof fn law_count_keeps_the_digits(n: nat)
    ensures
        uncommaed(count_text(n)) == decimal(n),
    decreases n,
{
    if n < 1000 {
        lemma_digits_have_no_comma(n);
    } else {
        law_count_keeps_the_digits(n / 1000);
        let s = count_text(n / 1000);
        let (x, y, z) = (digit(n / 100 % 10), digit(n / 10 % 10), digit(n % 10));
        lemma_uncommaed_push(s, ',');
        lemma_uncommaed_push(s.push(','), x);
        lemma_uncommaed_push(s.push(',').push(x), y);
        lemma_uncommaed_push(s.push(',').push(x).push(y), z);
        assert(count_text(n) =~= s.push(',').push(x).push(y).push(z));
        assert(n / 10 / 10 == n / 100 && n / 100 / 10 == n / 1000);
        assert(decimal(n / 100) == decimal(n / 1000).push(x));
        assert(decimal(n / 10) == decimal(n / 100).push(y));
    }
}

fn push_count(s: &mut String, n: u64)
    ensures
        final(s)@ == old(s)@ + count_text(n as nat),
    decreases n,
{
    if n < 1000 {
        push_decimal(s, n);
    } else {
        push_count(s, n / 1000);
        s.push(',');
        s.push((48 + (n / 100 % 10) as u8) as char);
        s.push((48 + (n / 10 % 10) as u8) as char);
        s.push((48 + (n % 10) as u8) as char);
    }
}

pub fn fmt_count(n: u64) -> (r: String)
    ensures
        r@ == count_text(n as nat),
{
    let mut s = String::new();
    push_count(&mut s, n);
    s
}

/// The commas stand before every third digit from the right, and nowhere else.
pub proof fn law_commas_part_the_thousands(n: nat, k: int)
    requires
        0 <= k < count_text(n).len(),
    ensures
        count_text(n)[count_text(n).len() - 1 - k] == ',' <==> k % 4 == 3,
    decreases n,
{
    if n < 1000 {
        reveal_with_fuel(decimal, 4);
        let t = decimal(n);
        assert(t.len() <= 3);
        assert(t[t.len() - 1 - k] != ',');
    } else {
        let head = count_text(n / 1000);
        let t = count_text(n);
        assert(t.len() == head.len() + 4);
        if k >= 4 {
            law_commas_part_the_thousands(n / 1000, k - 4);
            assert(t[t.len() - 1 - k] == head[head.len() - 1 - (k - 4)]);
        }
    }
}

/// What `nearest` gives is no further from the quotient than half, and where it is just
/// half away it is even.
pub proof fn law_nearest_is_within_half(n: nat, d: nat)
    requires
        d > 0,
    ensures
        2 * n <= 2 * (nearest(n, d) * d) + d,
        2 * (nearest(n, d) * d) <= 2 * n + d,
        2 * n == 2 * (nearest(n, d) * d) + d || 2 * (nearest(n, d) * d) == 2 * n + d ==> nearest(
            n,
            d,
        ) % 2 == 0,
{
    let (q, r) = (n / d, n % d);
    assert(n == q * d + r && r < d) by (nonlinear_arith)
        requires
            q == n / d,
            r == n % d,
            d > 0,
    ;
    assert((q + 1) * d == q * d + d) by (nonlinear_arith);
}

/// Sizes are shown to 53 significant bits: those that have no more as they are, the
/// others off by no more than half of the last bit.
pub proof fn law_sizes_keep_their_leading_bits(b: nat)
    requires
        b <= u64::MAX,
    ensures
        b < 0x20_0000_0000_0000 ==> rounded(b) == b,
        2 * b <= 2 * rounded(b) + spacing(b),
        2 * rounded(b) <= 2 * b + spacing(b),
        rounded(b) % spacing(b) == 0,
        b >= 0x20_0000_0000_0000 ==> spacing(b) * 0x10_0000_0000_0000 <= b < spacing(b)
            * 0x20_0000_0000_0000,
{
    lemma_spacing(b);
    law_nearest_is_within_half(b, spacing(b));
    let (q, s) = (nearest(b, spacing(b)), spacing(b));
    assert((q * s) % s == 0) by (nonlinear_arith)
        requires
            s > 0,
    ;
}

/// Whether `text` is `tenths` tenths of a unit of `bytes` bytes that is called `name`.
pub open spec fn is_in_unit(
    text: Seq<char>,
    tenths: nat,
    bytes: nat,
    name: Seq<char>,
) -> bool {
    &&& text == decimal(tenths / 10) + seq!['.', digit(tenths % 10)] + " "@ + name
    &&& {
        ||| bytes == 1024 && name == "KiB"@
        ||| bytes == 1024 * 1024 && name == "MiB"@
        ||| bytes == 1024 * 1024 * 1024 && name == "GiB"@
        ||| bytes == 1024 * 1024 * 1024 * 1024 && name == "TiB"@
        ||| bytes == 1024 * 1024 * 1024 * 1024 * 1024 && name == "PiB"@
        ||| bytes == 1024 * 1024 * 1024 * 1024 * 1024 * 1024 && name == "EiB"@
    }
}

/// A size is shown in bytes below 1024, else in the largest unit of which it makes at
/// least one, to the nearest tenth.
pub proof fn law_sizes_are_shown_to_the_nearest_tenth(b: nat) -> (r: (nat, nat, Seq<char>))
    requires
        1024 <= b <= u64::MAX,
    ensures
        ({
            let (tenths, bytes, name) = r;
            let v = rounded(b);
            &&& is_in_unit(size_text(b), tenths, bytes, name)
            &&& bytes <= v
            &&& v < 1024 * bytes || name == "EiB"@
            &&& 2 * (10 * v) <= 2 * (tenths * bytes) + bytes
            &&& 2 * (tenths * bytes) <= 2 * (10 * v) + bytes
        }),
        forall|x: nat| x < 1024 ==> #[trigger] size_text(x) == decimal(x) + " B"@,
{
    lemma_unit_bytes();
    law_sizes_keep_their_leading_bits(b);
    let v = rounded(b);
    assert(v >= 1024) by {
        if b >= 0x20_0000_0000_0000 {
            lemma_spacing(b);
        }
    }
    reveal_with_fuel(unit_of, 6);
    let unit = unit_of(v, 5);
    let tenths = nearest(10 * v, unit_bytes(unit));
    law_nearest_is_within_half(10 * v, unit_bytes(unit));
    assert(unit <= 5);
    assert(unit_bytes(unit) <= v);
    assert(unit < 5 ==> v < unit_bytes(unit + 1));
    (tenths, unit_bytes(unit), unit_name(unit))
}

/// A digit is the character of its value, and a number is the number of its tens
/// followed by its ones.
pub proof fn law_numbers_are_written_digit_by_digit(n: nat, d: nat)
    requires
        d < 10,
    ensures
        digit(d) as int == '0' as int + d,
        decimal(d) == seq![digit(d)],
        n > 0 ==> decimal(10 * n + d) == decimal(n) + seq![digit(d)],
{
    if n > 0 {
        assert((10 * n + d) / 10 == n && (10 * n + d) % 10 == d);
        assert(decimal(n).push(digit(d)) =~= decimal(n) + seq![digit(d)]);
    }
}

} // verus!
