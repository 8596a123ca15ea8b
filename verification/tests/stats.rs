use btdua::rng::Rng;
use btdua::stats::{fmt_count, fmt_size};

#[test]
fn formats() {
    assert_eq!(fmt_size(512), "512 B");
    assert_eq!(fmt_size(1536), "1.5 KiB");
    assert_eq!(fmt_size(3 << 30), "3.0 GiB");
    assert_eq!(fmt_count(1234567), "1,234,567");
    assert_eq!(fmt_count(12), "12");
}

#[test]
fn sizes_at_the_edges() {
    assert_eq!(fmt_size(0), "0 B");
    assert_eq!(fmt_size(1023), "1023 B");
    assert_eq!(fmt_size(1024), "1.0 KiB");
    assert_eq!(fmt_size(1024 * 1024 - 1), "1024.0 KiB");
    assert_eq!(fmt_size(1024 * 1024), "1.0 MiB");
    assert_eq!(fmt_size(u64::MAX), "16.0 EiB");
    // Half a tenth goes to the even digit.
    assert_eq!(fmt_size(1280), "1.2 KiB");
    assert_eq!(fmt_size(1792), "1.8 KiB");
}

#[test]
fn counts_at_the_edges() {
    assert_eq!(fmt_count(0), "0");
    assert_eq!(fmt_count(999), "999");
    assert_eq!(fmt_count(1000), "1,000");
    assert_eq!(fmt_count(1002003), "1,002,003");
    assert_eq!(fmt_count(u64::MAX), "18,446,744,073,709,551,615");
}

fn by_floats(b: u64) -> String {
    let units = ["KiB", "MiB", "GiB", "TiB", "PiB", "EiB"];
    if b < 1024 {
        return format!("{b} B");
    }
    let mut v = b as f64 / 1024.0;
    let mut i = 0;
    while v >= 1024.0 && i < units.len() - 1 {
        v /= 1024.0;
        i += 1;
    }
    format!("{v:.1} {}", units[i])
}

#[test]
fn sizes_agree_with_floating_point() {
    let mut r = Rng::new(42);
    for _ in 0..200_000 {
        let x = r.next_u64();
        let b = x >> (r.next_u64() % 64);
        assert_eq!(fmt_size(b), by_floats(b), "{b}");
    }
    for bits in 0..64u32 {
        for low in [0u64, 1, 2, 3] {
            for b in [(1u64 << bits).wrapping_sub(low), (1u64 << bits).wrapping_add(low)] {
                assert_eq!(fmt_size(b), by_floats(b), "{b}");
            }
        }
    }
    // Ties between two tenths.
    for unit in [1u64 << 10, 1 << 20, 1 << 30, 1 << 40] {
        for k in 0..2000u64 {
            let b = unit + unit / 20 * k;
            assert_eq!(fmt_size(b), by_floats(b), "{b}");
        }
    }
}
