use btdua::bignat::BigNat;
use btdua::rational::{Rational, Sign, Term};

fn of(parts: &[(u64, u64, bool)]) -> Rational {
    let v: Vec<Term> = parts.iter().map(|&(num, den, neg)| Term { num, den, neg }).collect();
    Rational::from_terms(&v)
}

#[test]
fn thirds_make_a_whole() {
    let mut r = Rational::zero();
    for _ in 0..3 {
        r.credit(1, 3);
    }
    assert!(r == Rational::whole(1));
    assert!(!r.less_than(&Rational::whole(1)));
    assert!(r.less_than(&Rational::whole(2)));
}

#[test]
fn subtraction_stops_at_zero() {
    let mut r = of(&[(1, 2, false)]);
    r.subtract(&of(&[(1, 3, false)]));
    assert!(r == of(&[(1, 6, false)]));
    r.subtract(&Rational::whole(1));
    assert!(r == Rational::zero());
}

#[test]
fn signs_are_told_apart() {
    assert!(matches!(of(&[(1, 3, false), (1, 3, true)]).sign(), Sign::Zero));
    assert!(matches!(of(&[(1, 3, false), (1, 2, true)]).sign(), Sign::Negative));
    assert!(matches!(of(&[(1, 2, false), (1, 3, true)]).sign(), Sign::Positive));
    assert!(matches!(Rational::default().sign(), Sign::Zero));
}

#[test]
fn large_products_do_not_wrap() {
    let m = BigNat::of(u64::MAX).times(u64::MAX);
    assert!(BigNat::of(u64::MAX).less_than(&m));
    assert!(m.less_than(&m.plus(&BigNat::of(1))));
    assert!(!m.less_than(&m));
}
