//! Exact rational numbers, kept as sums of fractions.
//!
//! Shares of samples are fractions of unlike denominators. Keeping one term
//! per denominator makes every sum exact, so that three thirds are one.

use vstd::prelude::*;

use crate::bignat::BigNat;

verus! {

/// The quotient of two integers as a real number.
pub open spec fn quotient(n: int, d: int) -> real {
    n as real / d as real
}

/// One signed fraction.
#[derive(Clone, Copy, Debug)]
pub struct Term {
    pub num: u64,
    pub den: u64,
    pub neg: bool,
}

impl Term {
    /// The fraction as a real number.
    pub open spec fn value(self) -> real {
        if self.neg {
            -quotient(self.num as int, self.den as int)
        } else {
            quotient(self.num as int, self.den as int)
        }
    }
}

/// The sum of a list of fractions.
pub open spec fn total(terms: Seq<Term>) -> real
    decreases terms.len(),
{
    if terms.len() == 0 {
        0 as real
    } else {
        total(terms.drop_last()) + terms.last().value()
    }
}

/// Whether every denominator is positive.
pub open spec fn proper(terms: Seq<Term>) -> bool {
    forall|i: int| 0 <= i < terms.len() ==> (#[trigger] terms[i]).den > 0
}

proof fn lemma_product_as_real(a: int, b: int)
    by (nonlinear_arith)
    ensures
        ((a * b) as real) == (a as real) * (b as real),
{
}

/// Fractions of one denominator add by their numerators.
pub proof fn lemma_quotient_add(a: int, b: int, d: int)
    requires
        d > 0,
    ensures
        quotient(a + b, d) == quotient(a, d) + quotient(b, d),
{
    let x = a as real;
    let y = b as real;
    let z = d as real;
    assert((a + b) as real == x + y);
    assert((x + y) / z == x / z + y / z) by (nonlinear_arith)
        requires
            z > 0 as real,
    ;
}

/// A fraction has the sign of its numerator.
pub proof fn lemma_quotient_sign(a: int, d: int)
    requires
        d > 0,
    ensures
        (quotient(a, d) > 0 as real) == (a > 0),
        (quotient(a, d) < 0 as real) == (a < 0),
{
    let x = a as real;
    let z = d as real;
    assert((x / z > 0 as real) == (x > 0 as real)) by (nonlinear_arith)
        requires
            z > 0 as real,
    ;
    assert((x / z < 0 as real) == (x < 0 as real)) by (nonlinear_arith)
        requires
            z > 0 as real,
    ;
}

/// The sum of two fractions over the product of their denominators.
proof fn lemma_cross_add(p: int, d: int, n: int, e: int)
    requires
        d > 0,
        e > 0,
    ensures
        quotient(p, d) + quotient(n, e) == quotient(p * e + n * d, d * e),
        d * e > 0,
{
    lemma_product_as_real(p, e);
    lemma_product_as_real(n, d);
    lemma_product_as_real(d, e);
    let x = p as real;
    let y = d as real;
    let u = n as real;
    let v = e as real;
    assert((p * e + n * d) as real == x * v + u * y);
    assert(x / y + u / v == (x * v + u * y) / (y * v)) by (nonlinear_arith)
        requires
            y > 0 as real,
            v > 0 as real,
    ;
    assert(d * e > 0) by (nonlinear_arith)
        requires
            d > 0,
            e > 0,
    ;
}

proof fn lemma_total_push(s: Seq<Term>, t: Term)
    ensures
        total(s.push(t)) == total(s) + t.value(),
{
    assert(s.push(t).drop_last() =~= s);
}

proof fn lemma_total_update(s: Seq<Term>, i: int, t: Term)
    requires
        0 <= i < s.len(),
    ensures
        total(s.update(i, t)) == total(s) - s[i].value() + t.value(),
    decreases s.len(),
{
    if i == s.len() - 1 {
        assert(s.update(i, t).drop_last() =~= s.drop_last());
    } else {
        lemma_total_update(s.drop_last(), i, t);
        assert(s.update(i, t).drop_last() =~= s.drop_last().update(i, t));
    }
}

proof fn lemma_total_remove(s: Seq<Term>, i: int)
    requires
        0 <= i < s.len(),
    ensures
        total(s.remove(i)) == total(s) - s[i].value(),
    decreases s.len(),
{
    if i == s.len() - 1 {
        assert(s.remove(i) =~= s.drop_last());
    } else {
        lemma_total_remove(s.drop_last(), i);
        assert(s.remove(i).drop_last() =~= s.drop_last().remove(i));
        assert(s.remove(i).last() == s.last());
    }
}

/// Adds `t` to the list: into the term of its denominator where there is one
/// that can hold the sum, else as a term of its own.
fn merge(terms: &mut Vec<Term>, t: Term)
    requires
        t.den > 0,
        proper(old(terms)@),
    ensures
        proper(final(terms)@),
        total(final(terms)@) == total(old(terms)@) + t.value(),
{
    if t.num == 0 {
        proof {
            lemma_quotient_sign(0, t.den as int);
        }
        return;
    }
    let mut i: usize = 0;
    while i < terms.len()
        invariant
            i <= terms@.len(),
            terms@ == old(terms)@,
            proper(terms@),
            t.den > 0,
        decreases terms@.len() - i,
    {
        let u: Term = terms[i];
        if u.den == t.den {
            let ghost d = t.den as int;
            if u.neg == t.neg {
                if let Some(num) = u.num.checked_add(t.num) {
                    let sum: Term = Term { num, den: u.den, neg: u.neg };
                    proof {
                        lemma_quotient_add(u.num as int, t.num as int, d);
                        lemma_total_update(terms@, i as int, sum);
                    }
                    terms.set(i, sum);
                    return;
                }
            } else if u.num > t.num {
                let sum: Term = Term { num: u.num - t.num, den: u.den, neg: u.neg };
                proof {
                    lemma_quotient_add(sum.num as int, t.num as int, d);
                    lemma_total_update(terms@, i as int, sum);
                }
                terms.set(i, sum);
                return;
            } else if u.num < t.num {
                let sum: Term = Term { num: t.num - u.num, den: u.den, neg: t.neg };
                proof {
                    lemma_quotient_add(sum.num as int, u.num as int, d);
                    lemma_total_update(terms@, i as int, sum);
                }
                terms.set(i, sum);
                return;
            } else {
                proof {
                    lemma_total_remove(terms@, i as int);
                }
                terms.remove(i);
                return;
            }
        }
        i += 1;
    }
    proof {
        lemma_total_push(terms@, t);
    }
    terms.push(t);
}

/// The sign of a number.
#[derive(Clone, Copy, Debug, PartialEq, Eq, Structural)]
pub enum Sign {
    Negative,
    Zero,
    Positive,
}

impl Sign {
    /// The sign of `x`.
    pub open spec fn of(x: real) -> Sign {
        if x < 0 as real {
            Sign::Negative
        } else if x > 0 as real {
            Sign::Positive
        } else {
            Sign::Zero
        }
    }
}

/// An exact rational number.
#[derive(Debug)]
pub struct Rational {
    terms: Vec<Term>,
}

impl View for Rational {
    type V = real;

    closed spec fn view(&self) -> real {
        total(self.terms@)
    }
}

impl Rational {
    #[verifier::type_invariant]
    spec fn well_formed(self) -> bool {
        proper(self.terms@)
    }

    /// Zero.
    pub fn zero() -> (r: Rational)
        ensures
            r@ == 0 as real,
    {
        Rational { terms: Vec::new() }
    }

    /// The whole number `n`.
    pub fn whole(n: u64) -> (r: Rational)
        ensures
            r@ == n as real,
    {
        let mut r: Rational = Rational::zero();
        r.credit(n, 1);
        proof {
            let x = n as real;
            assert(x / (1 as real) == x) by (nonlinear_arith);
        }
        r
    }

    /// The sum of the given fractions.
    pub fn from_terms(list: &Vec<Term>) -> (r: Rational)
        requires
            proper(list@),
        ensures
            r@ == total(list@),
    {
        let mut terms: Vec<Term> = Vec::new();
        let mut i: usize = 0;
        while i < list.len()
            invariant
                i <= list@.len(),
                proper(list@),
                proper(terms@),
                total(terms@) == total(list@.take(i as int)),
            decreases list@.len() - i,
        {
            merge(&mut terms, list[i]);
            proof {
                assert(list@.take(i + 1).drop_last() =~= list@.take(i as int));
            }
            i += 1;
        }
        proof {
            assert(list@.take(list@.len() as int) =~= list@);
        }
        Rational { terms }
    }

    /// Fractions that sum to this number.
    pub fn terms(&self) -> (r: &Vec<Term>)
        ensures
            proper(r@),
            total(r@) == self@,
    {
        proof {
            use_type_invariant(self);
        }
        &self.terms
    }

    /// Adds `num / den`.
    pub fn credit(&mut self, num: u64, den: u64)
        requires
            den > 0,
        ensures
            final(self)@ == old(self)@ + quotient(num as int, den as int),
    {
        proof {
            use_type_invariant(&*self);
        }
        let mut terms: Vec<Term> = Vec::new();
        std::mem::swap(&mut terms, &mut self.terms);
        merge(&mut terms, Term { num, den, neg: false });
        self.terms = terms;
    }

    /// The difference of two numbers.
    pub fn minus(&self, other: &Rational) -> (r: Rational)
        ensures
            r@ == self@ - other@,
    {
        proof {
            use_type_invariant(self);
            use_type_invariant(other);
        }
        let mut terms: Vec<Term> = Vec::new();
        let mut i: usize = 0;
        while i < self.terms.len()
            invariant
                i <= self.terms@.len(),
                proper(self.terms@),
                proper(terms@),
                total(terms@) == total(self.terms@.take(i as int)),
            decreases self.terms@.len() - i,
        {
            let t: Term = self.terms[i];
            proof {
                lemma_total_push(terms@, t);
                assert(self.terms@.take(i + 1).drop_last() =~= self.terms@.take(i as int));
            }
            terms.push(t);
            i += 1;
        }
        proof {
            assert(self.terms@.take(self.terms@.len() as int) =~= self.terms@);
        }
        let mut j: usize = 0;
        while j < other.terms.len()
            invariant
                j <= other.terms@.len(),
                proper(other.terms@),
                proper(terms@),
                total(terms@) == self@ - total(other.terms@.take(j as int)),
            decreases other.terms@.len() - j,
        {
            let t: Term = other.terms[j];
            let flipped: Term = Term { num: t.num, den: t.den, neg: !t.neg };
            merge(&mut terms, flipped);
            proof {
                assert(other.terms@.take(j + 1).drop_last() =~= other.terms@.take(j as int));
            }
            j += 1;
        }
        proof {
            assert(other.terms@.take(other.terms@.len() as int) =~= other.terms@);
        }
        Rational { terms }
    }

    /// Whether the number is negative, zero or positive.
    pub fn sign(&self) -> (r: Sign)
        ensures
            r == Sign::of(self@),
    {
        proof {
            use_type_invariant(self);
        }
        let mut plus: BigNat = BigNat::of(0);
        let mut minus: BigNat = BigNat::of(0);
        let mut scale: BigNat = BigNat::of(1);
        proof {
            lemma_quotient_sign(0, 1);
            assert(self.terms@.take(0) =~= Seq::<Term>::empty());
        }
        let mut i: usize = 0;
        while i < self.terms.len()
            invariant
                i <= self.terms@.len(),
                proper(self.terms@),
                scale@ > 0,
                total(self.terms@.take(i as int)) == quotient(plus@ - minus@, scale@ as int),
            decreases self.terms@.len() - i,
        {
            let t: Term = self.terms[i];
            let ghost (p, m, d) = (plus@ as int, minus@ as int, scale@ as int);
            proof {
                let n: int = if t.neg {
                    -(t.num as int)
                } else {
                    t.num as int
                };
                lemma_quotient_add(n, -n, t.den as int);
                lemma_quotient_sign(0, t.den as int);
                lemma_cross_add(p - m, d, n, t.den as int);
                assert(self.terms@.take(i + 1).drop_last() =~= self.terms@.take(i as int));
                assert((p - m) * t.den as int == p * t.den as int - m * t.den as int)
                    by (nonlinear_arith);
                assert(-(t.num as int) * d == -(d * t.num as int)) by (nonlinear_arith);
                assert(t.num as int * d == d * t.num as int) by (nonlinear_arith);
            }
            let step: BigNat = scale.times(t.num);
            plus = plus.times(t.den);
            minus = minus.times(t.den);
            if t.neg {
                minus = minus.plus(&step);
            } else {
                plus = plus.plus(&step);
            }
            scale = scale.times(t.den);
            i += 1;
        }
        proof {
            assert(self.terms@.take(self.terms@.len() as int) =~= self.terms@);
            lemma_quotient_sign(plus@ - minus@, scale@ as int);
        }
        if plus.less_than(&minus) {
            Sign::Negative
        } else if minus.less_than(&plus) {
            Sign::Positive
        } else {
            Sign::Zero
        }
    }

    /// Whether this number is smaller than `other`.
    pub fn less_than(&self, other: &Rational) -> (r: bool)
        ensures
            r == (self@ < other@),
    {
        self.minus(other).sign() == Sign::Negative
    }

    /// Subtracts `other`, stopping at zero.
    pub fn subtract(&mut self, other: &Rational)
        ensures
            final(self)@ == (if old(self)@ > other@ {
                old(self)@ - other@
            } else {
                0 as real
            }),
    {
        let rest: Rational = self.minus(other);
        *self = if rest.sign() == Sign::Positive {
            rest
        } else {
            Rational::zero()
        };
    }
}

impl Clone for Rational {
    fn clone(&self) -> (r: Self)
        ensures
            r@ == self@,
    {
        self.minus(&Rational::zero())
    }
}

impl Default for Rational {
    fn default() -> (r: Self)
        ensures
            r@ == 0 as real,
    {
        Rational::zero()
    }
}

impl PartialEq for Rational {
    fn eq(&self, other: &Self) -> (r: bool) {
        self.minus(other).sign() == Sign::Zero
    }
}

impl vstd::std_specs::cmp::PartialEqSpecImpl for Rational {
    open spec fn obeys_eq_spec() -> bool {
        true
    }

    open spec fn eq_spec(&self, other: &Self) -> bool {
        self@ == other@
    }
}

} // verus!
