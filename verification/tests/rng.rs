use btdua::rng::{mix_seed, worker_seed, Rng};

#[test]
fn below_stays_in_range_and_is_deterministic() {
    let (mut a, mut b) = (Rng::new(7), Rng::new(7));
    for _ in 0..10_000 {
        let x = a.below(10);
        assert!(x < 10);
        assert_eq!(x, b.below(10));
    }
}

#[test]
fn numbers_are_those_of_splitmix64() {
    let mut r = Rng::new(1234567);
    assert_eq!(r.next_u64(), 6457827717110365317);
    assert_eq!(r.next_u64(), 3203168211198807973);
    assert_eq!(r.next_u64(), 9817491932198370423);
}

#[test]
fn below_scales() {
    let mut a = Rng::new(1234567);
    assert_eq!(a.below(1000), (6457827717110365317u128 * 1000 >> 64) as u64);
    let mut b = Rng::new(1);
    assert_eq!(b.below(0), 0);
    assert_eq!(b.below(1), 0);
}

#[test]
fn seeds_differ_by_process_and_worker() {
    assert_eq!(mix_seed(5, 1), 5 ^ (1 << 32));
    assert_eq!(worker_seed(9, 0), 9);
    assert_eq!(worker_seed(9, 1), 9 ^ 0xA24B_AED4_963E_E407);
    assert_ne!(worker_seed(9, 1), worker_seed(9, 2));
}
