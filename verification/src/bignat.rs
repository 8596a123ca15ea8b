//! Natural numbers of any size, for comparing exact fractions.

use vstd::prelude::*;

verus! {

/// One more than the largest limb.
pub const BASE: u128 = 0x1_0000_0000_0000_0000;

/// What one unit of limb `n` is worth.
pub open spec fn weight(n: nat) -> nat
    decreases n,
{
    if n == 0 {
        1
    } else {
        (BASE * weight((n - 1) as nat)) as nat
    }
}

/// The number that little-endian limbs stand for.
pub open spec fn limbs_value(s: Seq<u64>) -> nat
    decreases s.len(),
{
    if s.len() == 0 {
        0
    } else {
        limbs_value(s.drop_last()) + s.last() as nat * weight((s.len() - 1) as nat)
    }
}

/// Limb `i`, reading as zero past the end.
pub open spec fn limb(s: Seq<u64>, i: int) -> u64 {
    if 0 <= i < s.len() {
        s[i]
    } else {
        0
    }
}

/// The value of the lowest `i` limbs.
pub open spec fn low(s: Seq<u64>, i: int) -> nat {
    if i < s.len() {
        limbs_value(s.take(i))
    } else {
        limbs_value(s)
    }
}

proof fn lemma_weight_step(n: nat)
    ensures
        weight(n + 1) == BASE * weight(n),
        weight(n) > 0,
    decreases n,
{
    if n > 0 {
        lemma_weight_step((n - 1) as nat);
        assert(BASE * weight(n) > 0) by (nonlinear_arith)
            requires
                weight(n) > 0,
                BASE > 0,
        ;
    }
    assert(weight(n + 1) == (BASE * weight(n)) as nat);
    assert(BASE * weight(n) >= 0) by (nonlinear_arith)
        requires
            weight(n) >= 0,
            BASE > 0,
    ;
}

proof fn lemma_low_step(s: Seq<u64>, i: int)
    requires
        0 <= i,
    ensures
        low(s, i + 1) == low(s, i) + limb(s, i) as nat * weight(i as nat),
{
    if i + 1 < s.len() {
        assert(s.take(i + 1).drop_last() =~= s.take(i));
    } else if i + 1 == s.len() {
        assert(s.drop_last() =~= s.take(i));
    } else {
        assert(limb(s, i) as nat * weight(i as nat) == 0) by (nonlinear_arith)
            requires
                limb(s, i) == 0,
        ;
    }
}

proof fn lemma_low_bound(s: Seq<u64>, i: int)
    requires
        0 <= i,
    ensures
        low(s, i) < weight(i as nat),
    decreases i,
{
    if i == 0 {
        assert(s.take(0).len() == 0);
    } else {
        lemma_low_bound(s, i - 1);
        lemma_low_step(s, i - 1);
        lemma_weight_step((i - 1) as nat);
        let w = weight((i - 1) as nat);
        let d = limb(s, i - 1) as nat;
        assert(low(s, i - 1) + d * w < BASE * w) by (nonlinear_arith)
            requires
                low(s, i - 1) < w,
                d <= BASE - 1,
        ;
    }
}

/// A natural number of any size, in little-endian limbs.
pub struct BigNat {
    limbs: Vec<u64>,
}

impl View for BigNat {
    type V = nat;

    closed spec fn view(&self) -> nat {
        limbs_value(self.limbs@)
    }
}

impl BigNat {
    /// The number `n`.
    pub fn of(n: u64) -> (r: BigNat)
        ensures
            r@ == n,
    {
        let mut limbs: Vec<u64> = Vec::new();
        limbs.push(n);
        proof {
            assert(limbs@.drop_last() =~= Seq::<u64>::empty());
            assert(limbs_value(limbs@.drop_last()) == 0);
            assert(n as nat * weight(0) == n) by (nonlinear_arith)
                requires
                    weight(0) == 1,
            ;
        }
        BigNat { limbs }
    }

    /// The product with a single limb.
    pub fn times(&self, m: u64) -> (r: BigNat)
        ensures
            r@ == self@ * m,
    {
        let mut out: Vec<u64> = Vec::new();
        let mut carry: u64 = 0;
        let mut i: usize = 0;
        proof {
            lemma_low_bound(self.limbs@, 0);
            assert(0nat * weight(0) == 0) by (nonlinear_arith);
            assert(low(self.limbs@, 0) * m == 0) by (nonlinear_arith)
                requires
                    low(self.limbs@, 0) == 0,
            ;
        }
        while i < self.limbs.len()
            invariant
                i <= self.limbs@.len(),
                out@.len() == i,
                limbs_value(out@) + carry as nat * weight(i as nat) == low(self.limbs@, i as int)
                    * m,
            decreases self.limbs@.len() - i,
        {
            let d: u64 = self.limbs[i];
            assert(d as int * m as int + carry <= u128::MAX) by (nonlinear_arith)
                requires
                    0 <= d <= u64::MAX,
                    0 <= m <= u64::MAX,
                    0 <= carry <= u64::MAX,
            ;
            assert(d as int * m as int <= u128::MAX) by (nonlinear_arith)
                requires
                    0 <= d <= u64::MAX,
                    0 <= m <= u64::MAX,
            ;
            let p: u128 = d as u128 * m as u128 + carry as u128;
            let lo: u64 = (p % BASE) as u64;
            let hi: u64 = (p / BASE) as u64;
            let ghost before = out@;
            out.push(lo);
            proof {
                lemma_low_step(self.limbs@, i as int);
                lemma_weight_step(i as nat);
                assert(out@.drop_last() =~= before);
                let w = weight(i as nat) as int;
                assert(p == hi as int * BASE + lo as int);
                let l = low(self.limbs@, i as int) as int;
                assert(lo as int * w + hi as int * (BASE * w) == (d as int * m as int + carry as int)
                    * w) by (nonlinear_arith)
                    requires
                        d as int * m as int + carry as int == hi as int * BASE + lo as int,
                ;
                assert((l + d as int * w) * m as int == l * m as int + (d as int * m as int) * w)
                    by (nonlinear_arith);
                assert((d as int * m as int + carry as int) * w == (d as int * m as int) * w
                    + carry as int * w) by (nonlinear_arith);
            }
            carry = hi;
            i += 1;
        }
        let ghost before = out@;
        out.push(carry);
        proof {
            assert(out@.drop_last() =~= before);
        }
        BigNat { limbs: out }
    }

    /// The sum of two numbers.
    pub fn plus(&self, other: &BigNat) -> (r: BigNat)
        ensures
            r@ == self@ + other@,
    {
        let n: usize = if self.limbs.len() < other.limbs.len() {
            other.limbs.len()
        } else {
            self.limbs.len()
        };
        let mut out: Vec<u64> = Vec::new();
        let mut carry: u64 = 0;
        let mut i: usize = 0;
        proof {
            lemma_low_bound(self.limbs@, 0);
            lemma_low_bound(other.limbs@, 0);
            assert(0nat * weight(0) == 0) by (nonlinear_arith);
        }
        while i < n
            invariant
                i <= n,
                carry <= 1,
                out@.len() == i,
                limbs_value(out@) + carry as nat * weight(i as nat) == low(self.limbs@, i as int)
                    + low(other.limbs@, i as int),
            decreases n - i,
        {
            let a: u64 = if i < self.limbs.len() {
                self.limbs[i]
            } else {
                0
            };
            let b: u64 = if i < other.limbs.len() {
                other.limbs[i]
            } else {
                0
            };
            let p: u128 = a as u128 + b as u128 + carry as u128;
            let lo: u64 = (p % BASE) as u64;
            let hi: u64 = (p / BASE) as u64;
            let ghost before = out@;
            out.push(lo);
            proof {
                lemma_low_step(self.limbs@, i as int);
                lemma_low_step(other.limbs@, i as int);
                lemma_weight_step(i as nat);
                assert(out@.drop_last() =~= before);
                let w = weight(i as nat) as int;
                assert(p == hi as int * BASE + lo as int);
                assert(lo as int * w + hi as int * (BASE * w) == a as int * w + b as int * w
                    + carry as int * w) by (nonlinear_arith)
                    requires
                        a as int + b as int + carry as int == hi as int * BASE + lo as int,
                ;
            }
            carry = hi;
            i += 1;
        }
        let ghost before = out@;
        out.push(carry);
        proof {
            assert(out@.drop_last() =~= before);
        }
        BigNat { limbs: out }
    }

    /// Whether this number is smaller than `other`.
    pub fn less_than(&self, other: &BigNat) -> (r: bool)
        ensures
            r == (self@ < other@),
    {
        let n: usize = if self.limbs.len() < other.limbs.len() {
            other.limbs.len()
        } else {
            self.limbs.len()
        };
        let mut less: bool = false;
        let mut i: usize = 0;
        proof {
            assert(low(self.limbs@, 0) == 0 && low(other.limbs@, 0) == 0) by {
                lemma_low_bound(self.limbs@, 0);
                lemma_low_bound(other.limbs@, 0);
            }
        }
        while i < n
            invariant
                i <= n,
                less == (low(self.limbs@, i as int) < low(other.limbs@, i as int)),
            decreases n - i,
        {
            let a: u64 = if i < self.limbs.len() {
                self.limbs[i]
            } else {
                0
            };
            let b: u64 = if i < other.limbs.len() {
                other.limbs[i]
            } else {
                0
            };
            proof {
                lemma_low_step(self.limbs@, i as int);
                lemma_low_step(other.limbs@, i as int);
                lemma_low_bound(self.limbs@, i as int);
                lemma_low_bound(other.limbs@, i as int);
                lemma_weight_step(i as nat);
                let w = weight(i as nat) as int;
                let x = low(self.limbs@, i as int) as int;
                let y = low(other.limbs@, i as int) as int;
                if a < b {
                    assert(x + a as int * w < y + b as int * w) by (nonlinear_arith)
                        requires
                            x < w,
                            y >= 0,
                            w > 0,
                            a as int + 1 <= b as int,
                    ;
                } else if b < a {
                    assert(y + b as int * w < x + a as int * w) by (nonlinear_arith)
                        requires
                            y < w,
                            x >= 0,
                            w > 0,
                            b as int + 1 <= a as int,
                    ;
                }
            }
            if a < b {
                less = true;
            } else if b < a {
                less = false;
            }
            i += 1;
        }
        less
    }
}

} // verus!
