//! A fixed-width 192-bit unsigned integer made of three 64-bit limbs.
//!
//! It serves as scratch space for multiply-then-divide sequences whose
//! intermediate product would overflow the native 128-bit magnitude.  Every
//! operation is checked: `None` is returned exactly when the mathematical
//! result does not fit in 192 bits (or, for subtraction, would be negative).

use vstd::prelude::*;

use vstd::arithmetic::div_mod::{
    lemma_basic_div,
    lemma_breakdown,
    lemma_div_basics,
    lemma_div_denominator,
    lemma_div_nonincreasing,
    lemma_fundamental_div_mod,
    lemma_fundamental_div_mod_converse,
    lemma_mod_bound,
    lemma_multiply_divide_lt,
    lemma_small_mod,
};
use vstd::arithmetic::mul::{lemma_mul_inequality, lemma_mul_strict_inequality};
use vstd::arithmetic::power::pow;
use vstd::arithmetic::power::{lemma_pow0, lemma_pow1, lemma_pow_adds, lemma_pow_increases, lemma_pow_positive};
use vstd::arithmetic::power2::{lemma2_to64, lemma_pow2_adds, lemma_pow2_pos, pow2};

verus! {

/// Three little-endian 64-bit limbs: `U192(lo, mid, hi)`.
#[derive(Clone, Copy, PartialEq, Eq, Structural, Debug)]
pub struct U192(pub u64, pub u64, pub u64);

/// `2^64`, the weight of one limb.
pub open spec fn limb_base() -> nat {
    0x1_0000_0000_0000_0000
}

/// `2^192`, the first value that does not fit.
pub open spec fn u192_bound() -> nat {
    limb_base() * limb_base() * limb_base()
}

impl U192 {
    /// The value represented: `lo + mid*2^64 + hi*2^128`.
    pub open spec fn as_nat(self) -> nat {
        self.0 as nat + self.1 as nat * limb_base() + self.2 as nat * (limb_base() * limb_base())
    }

    pub fn from_u64(v: u64) -> (r: U192)
        ensures
            r.as_nat() == v,
    {
        U192(v, 0, 0)
    }

    pub fn from_u128(v: u128) -> (r: U192)
        ensures
            r.as_nat() == v,
    {
        let lo = (v % 0x1_0000_0000_0000_0000) as u64;
        let mid = (v / 0x1_0000_0000_0000_0000) as u64;
        proof {
            assert(v == (v % 0x1_0000_0000_0000_0000) + (v / 0x1_0000_0000_0000_0000)
                * 0x1_0000_0000_0000_0000) by (nonlinear_arith);
        }
        U192(lo, mid, 0)
    }

    pub fn is_zero(&self) -> (r: bool)
        ensures
            r == (self.as_nat() == 0),
    {
        proof {
            lemma_u192_cmp(*self, U192(0, 0, 0));
        }
        self.0 == 0 && self.1 == 0 && self.2 == 0
    }

    /// Narrow back to a `u128`; `None` when the high limb is occupied.
    pub fn try_to_u128(self) -> (r: Option<u128>)
        ensures
            match r {
                Some(v) => v == self.as_nat(),
                None => self.as_nat() > u128::MAX,
            },
    {
        if self.2 == 0 {
            Some(self.0 as u128 + (self.1 as u128) * 0x1_0000_0000_0000_0000)
        } else {
            proof {
                assert(self.2 as nat * (limb_base() * limb_base()) >= limb_base() * limb_base())
                    by (nonlinear_arith)
                    requires self.2 >= 1;
            }
            None
        }
    }

    /// Limb-order comparison agrees with the value order.
    pub fn lt(&self, other: &U192) -> (r: bool)
        ensures
            r == (self.as_nat() < other.as_nat()),
    {
        proof {
            lemma_u192_cmp(*self, *other);
        }
        if self.2 != other.2 {
            self.2 < other.2
        } else if self.1 != other.1 {
            self.1 < other.1
        } else {
            self.0 < other.0
        }
    }

    pub fn gt(&self, other: &U192) -> (r: bool)
        ensures
            r == (self.as_nat() > other.as_nat()),
    {
        other.lt(self)
    }

    pub fn gte(&self, other: &U192) -> (r: bool)
        ensures
            r == (self.as_nat() >= other.as_nat()),
    {
        !self.lt(other)
    }

    pub fn eq_value(&self, other: &U192) -> (r: bool)
        ensures
            r == (self.as_nat() == other.as_nat()),
    {
        proof {
            lemma_u192_cmp(*self, *other);
        }
        self.0 == other.0 && self.1 == other.1 && self.2 == other.2
    }
}

impl U192 {
    /// Checked addition: `None` exactly when the sum does not fit.
    pub fn checked_add(self, other: U192) -> (r: Option<U192>)
        ensures
            match r {
                Some(v) => v.as_nat() == self.as_nat() + other.as_nat(),
                None => self.as_nat() + other.as_nat() >= u192_bound(),
            },
    {
        let (s, carry) = add_carry(self, other, false);
        if carry {
            None
        } else {
            Some(s)
        }
    }

    /// Checked subtraction: `None` exactly when the difference is negative.
    pub fn checked_sub(self, other: U192) -> (r: Option<U192>)
        ensures
            match r {
                Some(v) => v.as_nat() == self.as_nat() - other.as_nat(),
                None => self.as_nat() < other.as_nat(),
            },
    {
        let (s, borrow) = sub_borrow(self, other, false);
        if borrow {
            None
        } else {
            Some(s)
        }
    }

    /// Checked multiplication: `None` exactly when the product does not fit.
    pub fn checked_mul(self, other: U192) -> (r: Option<U192>)
        ensures
            match r {
                Some(v) => v.as_nat() == self.as_nat() * other.as_nat(),
                None => self.as_nat() * other.as_nat() >= u192_bound(),
            },
    {
        let U192(a0, a1, a2) = self;
        let U192(b0, b1, b2) = other;
        // row for the lowest limb of self
        let (p0, ca) = mac(0, a0, b0, 0);
        let (p1, cb) = mac(0, a0, b1, ca);
        let (p2, cc) = mac(0, a0, b2, cb);
        let p3 = cc;
        // row for the middle limb of self
        let (q1, da) = mac(p1, a1, b0, 0);
        let (q2, db) = mac(p2, a1, b1, da);
        let (q3, dc) = mac(p3, a1, b2, db);
        let q4 = dc;
        // row for the highest limb of self
        let (s2, ea) = mac(q2, a2, b0, 0);
        let (s3, eb) = mac(q3, a2, b1, ea);
        let (s4, ec) = mac(q4, a2, b2, eb);
        let s5 = ec;
        proof {
            lemma_limb_constants();
            let bb: int = limb_base() as int;
            let bb2: int = (limb_base() * limb_base()) as int;
            let bb3: int = u192_bound() as int;
            let bb4: int = bb3 * bb;
            let bb5: int = bb4 * bb;
            let bn: int = other.as_nat() as int;
            let an: int = self.as_nat() as int;
            assert(bb4
                == 0x1_0000_0000_0000_0000_0000_0000_0000_0000_0000_0000_0000_0000_0000_0000_0000_0000int);
            assert(bb5
                == 0x1_0000_0000_0000_0000_0000_0000_0000_0000_0000_0000_0000_0000_0000_0000_0000_0000_0000_0000_0000_0000int);
            assert(a0 * bn == a0 * b0 + (a0 * b1) * bb + (a0 * b2) * bb2) by (nonlinear_arith)
                requires bn == b0 + b1 * bb + b2 * bb2;
            assert(a1 * bn == a1 * b0 + (a1 * b1) * bb + (a1 * b2) * bb2) by (nonlinear_arith)
                requires bn == b0 + b1 * bb + b2 * bb2;
            assert(a2 * bn == a2 * b0 + (a2 * b1) * bb + (a2 * b2) * bb2) by (nonlinear_arith)
                requires bn == b0 + b1 * bb + b2 * bb2;
            assert(an * bn == a0 * bn + (a1 * bn) * bb + (a2 * bn) * bb2) by (nonlinear_arith)
                requires an == a0 + a1 * bb + a2 * bb2;
            assert(p0 + q1 * bb + s2 * bb2 + s3 * bb3 + s4 * bb4 + s5 * bb5 == an * bn);
        }
        if s3 == 0 && s4 == 0 && s5 == 0 {
            Some(U192(p0, q1, s2))
        } else {
            proof {
                let bb: int = limb_base() as int;
                let bb3: int = u192_bound() as int;
                let bb4: int = bb3 * bb;
                let bb5: int = bb4 * bb;
                assert(s3 * bb3 + s4 * bb4 + s5 * bb5 >= bb3) by (nonlinear_arith)
                    requires
                        bb >= 2,
                        bb3 >= 1,
                        bb4 == bb3 * bb,
                        bb5 == bb4 * bb,
                        s3 >= 0,
                        s4 >= 0,
                        s5 >= 0,
                        s3 >= 1 || s4 >= 1 || s5 >= 1,
                ;
            }
            None
        }
    }
}

impl U192 {
    /// Checked division, truncating toward zero: `None` exactly on a zero
    /// divisor.
    pub fn checked_div(self, other: U192) -> (r: Option<U192>)
        ensures
            match r {
                Some(v) => other.as_nat() > 0 && v.as_nat() == self.as_nat() / other.as_nat(),
                None => other.as_nat() == 0,
            },
    {
        if other.is_zero() {
            None
        } else {
            Some(self.div_rem(other).0)
        }
    }

    /// Binary long division from the top bit down: each round doubles the
    /// shifter to expose one dividend bit, folds it into the remainder, and
    /// subtracts the divisor when the remainder reaches it.
    fn div_rem(self, d: U192) -> (r: (U192, U192))
        requires
            d.as_nat() > 0,
        ensures
            r.0.as_nat() == self.as_nat() / d.as_nat(),
            r.1.as_nat() == self.as_nat() % d.as_nat(),
    {
        let a = self;
        let ghost av: nat = a.as_nat();
        let ghost dv: nat = d.as_nat();
        let mut x = self;
        let mut q = U192(0, 0, 0);
        let mut rem = U192(0, 0, 0);
        let mut i: u32 = 0;
        proof {
            lemma_u192_pow2();
            lemma_limb_constants();
            lemma_u192_below_bound(a);
            lemma_u192_below_bound(d);
            lemma_small_mod(av, pow2(192));
            lemma_basic_div(av as int, pow2(192) as int);
            assert(pow2(0) == 1) by {
                lemma2_to64();
            }
            assert((192 - 0) as nat == 192nat);
            assert(x.as_nat() == (av % pow2(192)) * pow2(0));
            assert(q.as_nat() == 0 && rem.as_nat() == 0);
            assert(0 * dv + 0 == av / pow2(192));
        }
        while i < 192
            invariant
                i <= 192,
                dv == d.as_nat(),
                av == a.as_nat(),
                0 < dv < pow2(192),
                av < pow2(192),
                x.as_nat() == (av % pow2((192 - i) as nat)) * pow2(i as nat),
                q.as_nat() * dv + rem.as_nat() == av / pow2((192 - i) as nat),
                rem.as_nat() < dv,
            decreases 192 - i,
        {
            let ghost n: nat = (192 - i) as nat;
            let ghost bit: nat = (av / pow2((n - 1) as nat)) % 2;
            let ghost rest: nat = (av % pow2((n - 1) as nat)) * pow2((i + 1) as nat);
            let ghost remv: nat = rem.as_nat();
            let ghost qv: nat = q.as_nat();
            proof {
                lemma_u192_pow2();
                lemma_limb_constants();
                lemma_shift_step(av, n);
                lemma_double_shift(av, n, i as nat, x.as_nat());
                assert(bit == 0 || bit == 1);
            }
            let (x2, carry) = add_carry(x, x, false);
            proof {
                lemma_u192_below_bound(x2);
                assert(x2.as_nat() + (if carry { pow2(192) } else { 0nat }) == bit * pow2(192)
                    + rest);
                if bit == 1 {
                    assert(1 * pow2(192) == pow2(192));
                    assert(carry);
                } else {
                    assert(0 * pow2(192) == 0);
                    assert(!carry);
                }
                assert(x2.as_nat() == rest);
                assert(carry == (bit == 1));
            }
            let (t, tc) = add_carry(rem, rem, carry);
            proof {
                assert(t.as_nat() + (if tc { pow2(192) } else { 0nat }) == 2 * remv + bit);
            }
            let qbit: bool;
            let new_rem: U192;
            if tc {
                proof {
                    lemma_u192_below_bound(t);
                    assert(t.as_nat() < dv);
                }
                let (t2, _borrow) = sub_borrow(t, d, false);
                proof {
                    assert(t2.as_nat() == 2 * remv + bit - dv);
                }
                new_rem = t2;
                qbit = true;
            } else if t.gte(&d) {
                let (t2, _borrow) = sub_borrow(t, d, false);
                proof {
                    assert(t2.as_nat() == 2 * remv + bit - dv);
                }
                new_rem = t2;
                qbit = true;
            } else {
                new_rem = t;
                qbit = false;
            }
            let ghost qnew: int = 2 * qv + (if qbit { 1int } else { 0int });
            proof {
                assert(new_rem.as_nat() == 2 * remv + bit - (if qbit { dv as int } else { 0int }));
                assert(new_rem.as_nat() < dv);
                if qbit {
                    assert((2 * qv + 1) * dv == 2 * (qv * dv) + dv) by (nonlinear_arith);
                } else {
                    assert((2 * qv + 0) * dv == 2 * (qv * dv)) by (nonlinear_arith);
                }
                assert(qnew * dv + new_rem.as_nat() == 2 * (qv * dv + remv) + bit);
                assert(qnew * dv + new_rem.as_nat() == av / pow2((n - 1) as nat));
                assert(av / pow2((n - 1) as nat) <= av) by {
                    lemma_pow2_pos((n - 1) as nat);
                    lemma_div_nonincreasing(av as int, pow2((n - 1) as nat) as int);
                }
                assert(qnew <= qnew * dv) by (nonlinear_arith)
                    requires qnew >= 0, dv >= 1;
                assert(qnew < pow2(192));
            }
            let (q2, qc) = add_carry(q, q, qbit);
            proof {
                assert(q2.as_nat() + (if qc { pow2(192) } else { 0nat }) == qnew);
                assert(!qc);
                assert(q2.as_nat() == qnew);
            }
            q = q2;
            rem = new_rem;
            x = x2;
            i = i + 1;
            proof {
                assert((192 - i) as nat == (n - 1) as nat);
            }
        }
        proof {
            assert(pow2(0) == 1) by {
                lemma2_to64();
            }
            lemma_div_basics(av as int);
            lemma_fundamental_div_mod_converse(
                av as int,
                dv as int,
                q.as_nat() as int,
                rem.as_nat() as int,
            );
        }
        (q, rem)
    }

    /// Halving: the value shifted right by one bit.
    pub fn half(self) -> (r: U192)
        ensures
            r.as_nat() == self.as_nat() / 2,
    {
        let l0 = self.0 / 2 + (self.1 % 2) * 0x8000_0000_0000_0000;
        let l1 = self.1 / 2 + (self.2 % 2) * 0x8000_0000_0000_0000;
        let l2 = self.2 / 2;
        let r = U192(l0, l1, l2);
        proof {
            lemma_limb_constants();
            lemma_fundamental_div_mod(self.0 as int, 2);
            lemma_fundamental_div_mod(self.1 as int, 2);
            lemma_fundamental_div_mod(self.2 as int, 2);
            assert(2 * r.as_nat() + (self.0 as nat % 2) == self.as_nat());
            lemma_fundamental_div_mod_converse(
                self.as_nat() as int,
                2,
                r.as_nat() as int,
                (self.0 as nat % 2) as int,
            );
        }
        r
    }

    /// The bit length: zero for zero, else the `n` with
    /// `2^(n-1) <= value < 2^n`.
    pub fn bit_len(self) -> (r: u32)
        ensures
            r <= 192,
            self.as_nat() < pow2(r as nat),
            r > 0 ==> pow2((r - 1) as nat) <= self.as_nat(),
            r == 0 ==> self.as_nat() == 0,
    {
        let ghost av: nat = self.as_nat();
        let mut x = self;
        let mut n: u32 = 0;
        proof {
            lemma_u192_pow2();
            lemma_u192_below_bound(self);
            assert(pow2(0) == 1) by {
                lemma2_to64();
            }
            lemma_div_basics(av as int);
        }
        while !x.is_zero()
            invariant
                av == self.as_nat(),
                av < pow2(192),
                n <= 192,
                x.as_nat() == av / pow2(n as nat),
                n > 0 ==> pow2((n - 1) as nat) <= av,
            decreases x.as_nat(),
        {
            proof {
                lemma_pow2_pos(n as nat);
                assert(av >= pow2(n as nat)) by {
                    if av < pow2(n as nat) {
                        lemma_basic_div(av as int, pow2(n as nat) as int);
                    }
                }
                assert(n < 192) by {
                    if n >= 192 {
                        lemma_pow2_192_min(n as nat);
                    }
                }
                lemma_div_denominator(av as int, pow2(n as nat) as int, 2);
                lemma_pow2_adds(n as nat, 1);
                lemma2_to64();
                lemma_div_nonincreasing(x.as_nat() as int, 2);
                assert(x.as_nat() / 2 < x.as_nat()) by {
                    assert(x.as_nat() >= 1);
                };
            }
            x = x.half();
            n = n + 1;
        }
        proof {
            lemma_pow2_pos(n as nat);
            assert(av / pow2(n as nat) == 0);
            assert(av < pow2(n as nat)) by {
                if av >= pow2(n as nat) {
                    lemma_div_is_positive(av, pow2(n as nat));
                }
            }
        }
        n
    }

    /// Checked exponentiation by repeated multiplication: `None` exactly
    /// when the power does not fit.
    pub fn checked_pow(self, exp: u32) -> (r: Option<U192>)
        ensures
            match r {
                Some(v) => v.as_nat() == pow(self.as_nat() as int, exp as nat),
                None => pow(self.as_nat() as int, exp as nat) >= u192_bound(),
            },
    {
        let ghost bv: int = self.as_nat() as int;
        let mut result = U192(1, 0, 0);
        let mut i: u32 = 0;
        proof {
            lemma_pow0(bv);
            lemma_limb_constants();
        }
        while i < exp
            invariant
                i <= exp,
                bv == self.as_nat(),
                result.as_nat() == pow(bv, i as nat),
            decreases exp - i,
        {
            let ghost before: nat = result.as_nat();
            let next = result.checked_mul(self);
            proof {
                assert(pow(bv, (i + 1) as nat) == pow(bv, i as nat) * bv) by {
                    lemma_pow_adds(bv, i as nat, 1);
                    lemma_pow1(bv);
                }
            }
            match next {
                Some(v) => {
                    result = v;
                }
                None => {
                    proof {
                        lemma_limb_constants();
                        assert(bv >= 1) by {
                            if bv == 0 {
                                assert(before * self.as_nat() == 0) by (nonlinear_arith)
                                    requires self.as_nat() == 0;
                            }
                        }
                        lemma_pow_increases(bv as nat, (i + 1) as nat, exp as nat);
                        lemma_pow_positive(bv, (i + 1) as nat);
                    }
                    return None;
                }
            }
            i = i + 1;
        }
        Some(result)
    }
}

/// A quotient of naturals is positive when the dividend reaches the divisor.
proof fn lemma_div_is_positive(a: nat, d: nat)
    requires
        0 < d <= a,
    ensures
        a / d >= 1,
{
    lemma_fundamental_div_mod(a as int, d as int);
    lemma_mod_bound(a as int, d as int);
    if a / d == 0 {
        assert(a == d * ((a as int) / (d as int)) + a % d);
    }
}

/// Every 192-bit value sits below `2^192`.
proof fn lemma_u192_below_bound(v: U192)
    ensures
        v.as_nat() < pow2(192),
{
    lemma_u192_pow2();
    lemma_limb_constants();
}

/// From `n >= 192` on, `2^n` is out of 192-bit range.
proof fn lemma_pow2_192_min(n: nat)
    requires
        n >= 192,
    ensures
        pow2(n) >= pow2(192),
{
    lemma_pow_increases(2, 192, n);
    lemma_pow_positive(2, 192);
    lemma_pow_positive(2, n);
}

/// The limb weights as powers of two.
pub proof fn lemma_u192_pow2()
    ensures
        pow2(64) == limb_base(),
        pow2(128) == limb_base() * limb_base(),
        pow2(192) == u192_bound(),
{
    lemma2_to64();
    lemma_pow2_adds(64, 64);
    lemma_pow2_adds(128, 64);
}

/// One step of shifting: splitting off the bit at position `n - 1`.
proof fn lemma_shift_step(a: nat, n: nat)
    requires
        n >= 1,
    ensures
        a / pow2((n - 1) as nat) == 2 * (a / pow2(n)) + (a / pow2((n - 1) as nat)) % 2,
        a % pow2(n) == ((a / pow2((n - 1) as nat)) % 2) * pow2((n - 1) as nat) + a % pow2(
            (n - 1) as nat,
        ),
{
    lemma_pow2_pos((n - 1) as nat);
    lemma_pow2_adds((n - 1) as nat, 1);
    assert(pow2(1) == 2) by {
        lemma2_to64();
    }
    lemma_div_denominator(a as int, pow2((n - 1) as nat) as int, 2);
    lemma_fundamental_div_mod((a / pow2((n - 1) as nat)) as int, 2);
    lemma_breakdown(a as int, pow2((n - 1) as nat) as int, 2);
}

/// Doubling the shifter pushes the bit at position `n - 1` over the top.
proof fn lemma_double_shift(a: nat, n: nat, i: nat, xv: nat)
    requires
        n >= 1,
        n + i == 192,
        a < pow2(192),
        xv == (a % pow2(n)) * pow2(i),
    ensures
        2 * xv == ((a / pow2((n - 1) as nat)) % 2) * pow2(192) + (a % pow2((n - 1) as nat))
            * pow2((i + 1) as nat),
        (a % pow2((n - 1) as nat)) * pow2((i + 1) as nat) < pow2(192),
{
    let m: nat = (n - 1) as nat;
    let bit: nat = (a / pow2(m)) % 2;
    let low: nat = a % pow2(m);
    lemma_shift_step(a, n);
    lemma_pow2_pos(m);
    lemma_pow2_pos(i);
    lemma_pow2_adds(m, i + 1);
    lemma_pow2_adds(i, 1);
    assert(pow2(1) == 2) by {
        lemma2_to64();
    }
    assert(2 * xv == bit * (pow2(m) * pow2((i + 1) as nat)) + low * pow2((i + 1) as nat))
        by (nonlinear_arith)
        requires
            xv == (bit * pow2(m) + low) * pow2(i),
            pow2((i + 1) as nat) == pow2(i) * 2,
    ;
    assert(pow2(m) * pow2((i + 1) as nat) == pow2(192));
    assert(low * pow2((i + 1) as nat) < pow2(192)) by {
        lemma_mod_bound(a as int, pow2(m) as int);
        lemma_mul_strict_inequality(low as int, pow2(m) as int, pow2((i + 1) as nat) as int);
    }
}

/// One limb of addition: the result pair is `(sum, carry out)`.
fn add_limb(a: u64, b: u64, c: u64) -> (r: (u64, u64))
    requires
        c <= 1,
    ensures
        r.0 as nat + r.1 as nat * limb_base() == a as nat + b as nat + c as nat,
        r.1 <= 1,
{
    let s: u128 = a as u128 + b as u128 + c as u128;
    proof {
        lemma_fundamental_div_mod(s as int, limb_base() as int);
        lemma_multiply_divide_lt(s as int, limb_base() as int, 2);
    }
    ((s % 0x1_0000_0000_0000_0000u128) as u64, (s / 0x1_0000_0000_0000_0000u128) as u64)
}

/// One limb of subtraction: the result pair is `(difference, borrow out)`,
/// with `difference == a - b - borrow + borrow_out * 2^64`.
fn sub_limb(a: u64, b: u64, c: u64) -> (r: (u64, u64))
    requires
        c <= 1,
    ensures
        r.0 as int == a - b - c + r.1 * limb_base(),
        r.1 <= 1,
{
    let s: u128 = 0x1_0000_0000_0000_0000u128 + a as u128 - b as u128 - c as u128;
    if s >= 0x1_0000_0000_0000_0000u128 {
        proof {
            lemma_fundamental_div_mod_converse(
                s as int,
                limb_base() as int,
                1,
                s - limb_base(),
            );
        }
        ((s % 0x1_0000_0000_0000_0000u128) as u64, 0)
    } else {
        proof {
            lemma_small_mod(s as nat, limb_base());
        }
        ((s % 0x1_0000_0000_0000_0000u128) as u64, 1)
    }
}

/// One multiply-accumulate step: `acc + x * y + carry` split into
/// `(low limb, high limb)`.
fn mac(acc: u64, x: u64, y: u64, carry: u64) -> (r: (u64, u64))
    ensures
        r.0 as nat + r.1 as nat * limb_base() == acc as nat + x as nat * y as nat + carry as nat,
{
    proof {
        assert(x as nat * y as nat <= 0xFFFF_FFFF_FFFF_FFFFnat * 0xFFFF_FFFF_FFFF_FFFFnat)
            by (nonlinear_arith)
            requires x <= 0xFFFF_FFFF_FFFF_FFFFu64, y <= 0xFFFF_FFFF_FFFF_FFFFu64;
    }
    let s: u128 = acc as u128 + (x as u128) * (y as u128) + carry as u128;
    proof {
        lemma_fundamental_div_mod(s as int, limb_base() as int);
        lemma_multiply_divide_lt(s as int, limb_base() as int, limb_base() as int);
    }
    ((s % 0x1_0000_0000_0000_0000u128) as u64, (s / 0x1_0000_0000_0000_0000u128) as u64)
}

/// Three-limb addition with carry in and carry out:
/// `sum + carry_out * 2^192 == a + b + carry_in`.
fn add_carry(a: U192, b: U192, c: bool) -> (r: (U192, bool))
    ensures
        r.0.as_nat() + (if r.1 { u192_bound() } else { 0nat }) == a.as_nat() + b.as_nat() + (
        if c { 1nat } else { 0nat }),
{
    let cin: u64 = if c { 1 } else { 0 };
    let (l0, c0) = add_limb(a.0, b.0, cin);
    let (l1, c1) = add_limb(a.1, b.1, c0);
    let (l2, c2) = add_limb(a.2, b.2, c1);
    proof {
        lemma_limb_constants();
        assert((l1 as nat + c1 as nat * limb_base()) * limb_base() == (a.1 as nat + b.1 as nat
            + c0 as nat) * limb_base());
        assert((l2 as nat + c2 as nat * limb_base()) * (limb_base() * limb_base()) == (
        a.2 as nat + b.2 as nat + c1 as nat) * (limb_base() * limb_base()));
    }
    (U192(l0, l1, l2), c2 == 1)
}

/// Three-limb subtraction with borrow out:
/// `difference == a - b - borrow_in + borrow_out * 2^192`, so the borrow is
/// set exactly when `a < b + borrow_in`.
fn sub_borrow(a: U192, b: U192, c: bool) -> (r: (U192, bool))
    ensures
        r.0.as_nat() as int == a.as_nat() - b.as_nat() - (if c { 1int } else { 0int }) + (
        if r.1 { u192_bound() as int } else { 0int }),
        r.1 == (a.as_nat() < b.as_nat() + (if c { 1int } else { 0int })),
{
    let cin: u64 = if c { 1 } else { 0 };
    let (l0, c0) = sub_limb(a.0, b.0, cin);
    let (l1, c1) = sub_limb(a.1, b.1, c0);
    let (l2, c2) = sub_limb(a.2, b.2, c1);
    proof {
        lemma_limb_constants();
        assert((l1 as int) * (limb_base() as int) == (a.1 as int - b.1 - c0 + c1 * limb_base())
            * (limb_base() as int));
        assert((l2 as int) * ((limb_base() * limb_base()) as int) == (a.2 as int - b.2 - c1 + c2
            * limb_base()) * ((limb_base() * limb_base()) as int));
        let rn = U192(l0, l1, l2).as_nat() as int;
        let d = a.as_nat() - b.as_nat() - cin + (if c2 == 1 { u192_bound() as int } else { 0int });
        assert(rn == d);
        if a.as_nat() >= b.as_nat() + cin {
            assert(c2 == 0) by {
                if c2 == 1 {
                    assert(rn >= u192_bound());
                    assert(rn < u192_bound());
                }
            }
        } else {
            assert(c2 == 1) by {
                if c2 == 0 {
                    assert(rn < 0);
                }
            }
        }
    }
    (U192(l0, l1, l2), c2 == 1)
}

/// The limb weights written out: `2^64`, `2^128` and `2^192`.
pub proof fn lemma_limb_constants()
    ensures
        limb_base() == 0x1_0000_0000_0000_0000nat,
        limb_base() * limb_base() == 0x1_0000_0000_0000_0000_0000_0000_0000_0000nat,
        u192_bound()
            == 0x1_0000_0000_0000_0000_0000_0000_0000_0000_0000_0000_0000_0000nat,
{
    assert(limb_base() * limb_base() == 0x1_0000_0000_0000_0000_0000_0000_0000_0000nat)
        by (nonlinear_arith)
        requires limb_base() == 0x1_0000_0000_0000_0000nat;
    assert((limb_base() * limb_base()) * limb_base()
        == 0x1_0000_0000_0000_0000_0000_0000_0000_0000_0000_0000_0000_0000nat)
        by (nonlinear_arith)
        requires
            limb_base() == 0x1_0000_0000_0000_0000nat,
            limb_base() * limb_base() == 0x1_0000_0000_0000_0000_0000_0000_0000_0000nat,
    ;
}

/// Distinct limb vectors represent distinct values, in lexicographic order.
proof fn lemma_u192_cmp(a: U192, b: U192)
    ensures
        (a.as_nat() == b.as_nat()) == (a.0 == b.0 && a.1 == b.1 && a.2 == b.2),
        (a.as_nat() < b.as_nat()) == (a.2 < b.2 || (a.2 == b.2 && a.1 < b.1) || (a.2 == b.2
            && a.1 == b.1 && a.0 < b.0)),
{
    assert(a.as_nat() == b.as_nat() ==> (a.0 == b.0 && a.1 == b.1 && a.2 == b.2))
        by (nonlinear_arith)
        requires
            a.as_nat() == a.0 as nat + a.1 as nat * limb_base() + a.2 as nat * (limb_base()
                * limb_base()),
            b.as_nat() == b.0 as nat + b.1 as nat * limb_base() + b.2 as nat * (limb_base()
                * limb_base()),
            a.0 < limb_base(),
            a.1 < limb_base(),
            b.0 < limb_base(),
            b.1 < limb_base(),
    ;
    assert((a.2 < b.2 || (a.2 == b.2 && a.1 < b.1) || (a.2 == b.2 && a.1 == b.1 && a.0 < b.0))
        ==> a.as_nat() < b.as_nat()) by (nonlinear_arith)
        requires
            a.as_nat() == a.0 as nat + a.1 as nat * limb_base() + a.2 as nat * (limb_base()
                * limb_base()),
            b.as_nat() == b.0 as nat + b.1 as nat * limb_base() + b.2 as nat * (limb_base()
                * limb_base()),
            a.0 < limb_base(),
            a.1 < limb_base(),
            b.0 < limb_base(),
            b.1 < limb_base(),
    ;
    assert((b.2 < a.2 || (b.2 == a.2 && b.1 < a.1) || (b.2 == a.2 && b.1 == a.1 && b.0 < a.0))
        ==> b.as_nat() < a.as_nat()) by (nonlinear_arith)
        requires
            a.as_nat() == a.0 as nat + a.1 as nat * limb_base() + a.2 as nat * (limb_base()
                * limb_base()),
            b.as_nat() == b.0 as nat + b.1 as nat * limb_base() + b.2 as nat * (limb_base()
                * limb_base()),
            a.0 < limb_base(),
            a.1 < limb_base(),
            b.0 < limb_base(),
            b.1 < limb_base(),
    ;
}

} // verus!
