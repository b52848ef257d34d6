//! Powers: integer exponents by square-and-multiply through the extended
//! width; decimal exponents by a closed set of recognized decompositions
//! into square roots, multiplications and reciprocals.

use vstd::prelude::*;

use crate::decimal::base::{to_scale_ok, to_scale_val, Decimal, COMPUTE_SCALE};
use crate::decimal::big::{BigDecimal, BIG_COMPUTE_SCALE};
use crate::decimal::ops::big_mul::BigMul;
use crate::decimal::ops::div::Div;
use crate::decimal::ops::mul::Mul;
use crate::decimal::ops::neg::Neg;
use crate::decimal::ops::sqrt::Sqrt;
use crate::math::{
    isqrt,
    lemma_isqrt_bounds,
    lemma_pow10_38_fits,
    lemma_pow10_adds,
    lemma_pow10_increases,
    lemma_pow10_pos,
    pow10,
};
use crate::uint::u192_bound;

verus! {

/// The magnitude and sign after running square-and-multiply from the
/// accumulator `(r, rneg)` with base `(b, bneg)` and exponent `e`, every
/// product divided by the denominator `p` and its sign coerced to
/// non-negative on zero; the base is squared only while exponent bits
/// remain.
pub open spec fn pow_val(r: nat, rneg: bool, b: nat, bneg: bool, e: nat, p: nat) -> (nat, bool)
    decreases e,
{
    if e == 0 {
        (r, rneg)
    } else {
        let rv = if e % 2 == 1 {
            (r * b) / p
        } else {
            r
        };
        let rn = if e % 2 == 1 {
            (rneg != bneg) && rv != 0
        } else {
            rneg
        };
        if e / 2 == 0 {
            (rv, rn)
        } else {
            pow_val(rv, rn, (b * b) / p, false, e / 2, p)
        }
    }
}

/// The square-and-multiply run stays in range: every product taken fits
/// the 192-bit scratch width and every narrowed result fits 128 bits.
pub open spec fn pow_fits(r: nat, b: nat, e: nat, p: nat) -> bool
    decreases e,
{
    if e == 0 {
        true
    } else {
        let rv = if e % 2 == 1 {
            (r * b) / p
        } else {
            r
        };
        (e % 2 == 1 ==> r * b < u192_bound() && (r * b) / p <= u128::MAX) && (e / 2 > 0 ==> b * b
            < u192_bound() && (b * b) / p <= u128::MAX && pow_fits(rv, (b * b) / p, e / 2, p))
    }
}

pub trait Pow<T>: Sized {
    /// The inputs `pow` accepts.
    spec fn pow_req(self, rhs: T) -> bool;

    /// What `pow` returns.
    spec fn pow_ens(self, rhs: T, r: Self) -> bool;

    /// Calculate the power of the value with `rhs` as the exponent.
    fn pow(self, rhs: T) -> (r: Self)
        requires
            self.pow_req(rhs),
        ensures
            self.pow_ens(rhs, r),
    ;
}

/// The power of a [`Decimal`] with an unsigned integer exponent: binary
/// exponentiation with a deterministic step count equal to the exponent's
/// bit length, every multiplication taken through the extended width.
impl Pow<u128> for Decimal {
    open spec fn pow_req(self, rhs: u128) -> bool {
        self.scale <= 38 && pow_fits(pow10(self.scale as nat), self.value as nat, rhs as nat,
            pow10(self.scale as nat))
    }

    open spec fn pow_ens(self, rhs: u128, r: Decimal) -> bool {
        let p = pow10(self.scale as nat);
        let out = pow_val(p, false, self.value as nat, self.negative, rhs as nat, p);
        r.value == out.0 && r.negative == out.1 && r.scale == self.scale
    }

    fn pow(self, rhs: u128) -> (r: Decimal) {
        proof {
            lemma_one_at_scale(self.scale as nat);
        }
        let one_compute = Decimal::one();
        proof {
            assert(pow10(12) == 1000000000000nat) by {
                reveal_with_fuel(pow10, 14);
            }
            assert(one_compute == Decimal {
                value: 1000000000000u128,
                scale: COMPUTE_SCALE,
                negative: false,
            });
        }
        let one = one_compute.to_scale(self.scale);

        if rhs == 0 {
            return one;
        }

        let ghost p: nat = pow10(self.scale as nat);
        let ghost target: (nat, bool) = pow_val(p, false, self.value as nat, self.negative,
            rhs as nat, p);

        let mut current_exp = rhs;
        let mut base = self;
        let mut result = one;

        while current_exp > 0
            invariant
                p == pow10(self.scale as nat),
                self.scale <= 38,
                base.scale == self.scale,
                result.scale == self.scale,
                pow_val(result.value as nat, result.negative, base.value as nat, base.negative,
                    current_exp as nat, p) == target,
                pow_fits(result.value as nat, base.value as nat, current_exp as nat, p),
            decreases current_exp,
        {
            proof {
                lemma_pow10_pos(self.scale as nat);
            }
            if current_exp % 2 != 0 {
                result = result.big_mul(base);
            }
            current_exp = current_exp / 2;
            if current_exp > 0 {
                base = base.big_mul(base);
            }
        }
        result
    }
}

/// A decimal relabelled at the compute scale, fields spelled out; zero
/// comes out non-negative.
pub open spec fn at_compute(d: Decimal) -> Decimal {
    Decimal {
        value: to_scale_val(d, COMPUTE_SCALE) as u128,
        scale: COMPUTE_SCALE,
        negative: d.negative && to_scale_val(d, COMPUTE_SCALE) != 0,
    }
}

/// A decimal moved back to the scale `s`, fields spelled out; zero comes
/// out non-negative.
pub open spec fn at_scale(d: Decimal, s: u8) -> Decimal {
    Decimal {
        value: to_scale_val(d, s) as u128,
        scale: s,
        negative: d.negative && to_scale_val(d, s) != 0,
    }
}

/// What a square root result looks like: the integer square root of the
/// operand pre-scaled by its own denominator, possibly one above it.
pub open spec fn sqrt_rel(d: Decimal, r: Decimal) -> bool {
    let n = d.value * pow10(d.scale as nat);
    &&& r.scale == d.scale
    &&& r.value * r.value <= n + 1
    &&& n < (r.value + 1) * (r.value + 1)
    &&& r.negative == (d.negative && r.value != 0)
}

/// The result of a truncating multiplication, fields spelled out; zero
/// comes out non-negative.
pub open spec fn mul_out(a: Decimal, b: Decimal) -> Decimal {
    Decimal {
        value: ((a.value * b.value) as nat / pow10(b.scale as nat)) as u128,
        scale: a.scale,
        negative: (a.negative != b.negative) && (a.value * b.value) as nat / pow10(
            b.scale as nat,
        ) != 0,
    }
}

/// The result of a truncating division, fields spelled out; zero comes
/// out non-negative.
pub open spec fn div_out(a: Decimal, b: Decimal) -> Decimal {
    Decimal {
        value: ((a.value * pow10(b.scale as nat)) as nat / b.value as nat) as u128,
        scale: a.scale,
        negative: (a.negative != b.negative) && (a.value * pow10(b.scale as nat)) as nat
            / b.value as nat != 0,
    }
}

/// One at the compute scale.
pub open spec fn one_compute() -> Decimal {
    Decimal { value: 1000000000000, scale: COMPUTE_SCALE, negative: false }
}

/// An upper bound for any square root result of a magnitude `v` at the
/// compute scale.
pub open spec fn sqrt_bound(v: nat) -> nat {
    isqrt(v * pow10(12)) + 1
}

/// A magnitude up to `m` survives the move from the compute scale to `s`.
pub open spec fn rescale_ok(m: nat, s: u8) -> bool {
    s >= COMPUTE_SCALE ==> m * pow10((s - COMPUTE_SCALE) as nat) <= u128::MAX
}

/// The result of the square-and-multiply kernel at the compute scale.
pub open spec fn int_pow_out(b: Decimal, e: nat) -> Decimal {
    let p = pow10(COMPUTE_SCALE as nat);
    let out = pow_val(p, false, b.value as nat, b.negative, e, p);
    Decimal { value: out.0 as u128, scale: COMPUTE_SCALE, negative: out.1 }
}

/// A result of one square root, moved back to scale `s`.
pub open spec fn sqrt_once_out(xb: Decimal, r: Decimal, s: u8) -> bool {
    exists|w: Decimal| #[trigger] sqrt_rel(xb, w) && r == at_scale(w, s)
}

/// A result of two square roots in a row, moved back to scale `s`.
pub open spec fn sqrt_twice_out(xb: Decimal, r: Decimal, s: u8) -> bool {
    exists|w1: Decimal, w2: Decimal|
        #[trigger] sqrt_rel(xb, w1) && #[trigger] sqrt_rel(w1, w2) && r == at_scale(w2, s)
}

/// The operand times its fourth root, moved back to scale `s`.
pub open spec fn mul_sqrt_twice_out(xb: Decimal, r: Decimal, s: u8) -> bool {
    exists|w1: Decimal, w2: Decimal|
        #[trigger] sqrt_rel(xb, w1) && #[trigger] sqrt_rel(w1, w2) && r == at_scale(
            mul_out(xb, w2),
            s,
        )
}

/// The operand times its square root, moved back to scale `s`.
pub open spec fn mul_sqrt_once_out(xb: Decimal, r: Decimal, s: u8) -> bool {
    exists|w: Decimal| #[trigger] sqrt_rel(xb, w) && r == at_scale(mul_out(xb, w), s)
}

/// The reciprocal of the fourth root, moved back to scale `s`.
pub open spec fn recip_sqrt_twice_out(xb: Decimal, r: Decimal, s: u8) -> bool {
    exists|w1: Decimal, w2: Decimal|
        #[trigger] sqrt_rel(xb, w1) && #[trigger] sqrt_rel(w1, w2) && r == at_scale(
            div_out(one_compute(), w2),
            s,
        )
}

/// The reciprocal of the square root, moved back to scale `s`.
pub open spec fn recip_sqrt_once_out(xb: Decimal, r: Decimal, s: u8) -> bool {
    exists|w: Decimal|
        #[trigger] sqrt_rel(xb, w) && r == at_scale(div_out(one_compute(), w), s)
}

/// The reciprocal of the operand times its fourth root, moved back to
/// scale `s`.
pub open spec fn recip_mul_sqrt_twice_out(xb: Decimal, r: Decimal, s: u8) -> bool {
    exists|w1: Decimal, w2: Decimal|
        #[trigger] sqrt_rel(xb, w1) && #[trigger] sqrt_rel(w1, w2) && r == at_scale(
            div_out(one_compute(), mul_out(xb, w2)),
            s,
        )
}

/// The reciprocal of the operand times its square root, moved back to
/// scale `s`.
pub open spec fn recip_mul_sqrt_once_out(xb: Decimal, r: Decimal, s: u8) -> bool {
    exists|w: Decimal|
        #[trigger] sqrt_rel(xb, w) && r == at_scale(div_out(one_compute(), mul_out(xb, w)), s)
}

/// The power of a [`Decimal`] with another [`Decimal`] as the exponent:
/// only a fixed recognized set of exponents is accepted — `0`, `0.25`,
/// `0.5`, `1`, `1.25`, `1.5`, `2`, their negations, and exact integers —
/// each mapping to a closed combination of square roots, multiplications
/// and reciprocals at the compute scale.
impl Pow<Decimal> for Decimal {
    open spec fn pow_req(self, rhs: Decimal) -> bool {
        let s = self.scale;
        let xb = at_compute(self);
        let ev = to_scale_val(rhs, COMPUTE_SCALE);
        let pos = !rhs.negative && rhs.value != 0;
        let n1 = xb.value * pow10(12);
        let m1 = sqrt_bound(xb.value as nat);
        let m2 = sqrt_bound(m1);
        &&& to_scale_ok(self, COMPUTE_SCALE)
        &&& to_scale_ok(rhs, COMPUTE_SCALE)
        &&& self.scale <= 38
        &&& if ev == 0 {
            rescale_ok(pow10(12), s)
        } else if pos && ev == 250000000000 {
            n1 < u192_bound() && rescale_ok(m2, s)
        } else if pos && ev == 500000000000 {
            n1 < u192_bound() && rescale_ok(m1, s)
        } else if pos && ev == 1000000000000 {
            to_scale_ok(xb, s)
        } else if pos && ev == 1250000000000 {
            n1 < u192_bound() && xb.value * m2 <= u128::MAX && rescale_ok(
                (xb.value * m2) as nat / pow10(12),
                s,
            )
        } else if pos && ev == 1500000000000 {
            n1 < u192_bound() && xb.value * m1 <= u128::MAX && rescale_ok(
                (xb.value * m1) as nat / pow10(12),
                s,
            )
        } else if pos && ev == 2000000000000 {
            xb.value * self.value <= u128::MAX && rescale_ok(
                (xb.value * self.value) as nat / pow10(self.scale as nat),
                s,
            )
        } else if pos && ev % pow10(12) == 0 {
            let e = ev / pow10(12);
            &&& e <= u64::MAX
            &&& pow_fits(pow10(12), xb.value as nat, e, pow10(12))
            &&& to_scale_ok(int_pow_out(xb, e), s)
        } else if !pos && ev == 250000000000 {
            n1 < u192_bound() && xb.value >= 1 && rescale_ok(pow10(24), s)
        } else if !pos && ev == 500000000000 {
            n1 < u192_bound() && xb.value >= 1 && rescale_ok(pow10(24), s)
        } else if !pos && ev == 1000000000000 {
            xb.value >= 1 && rescale_ok(pow10(24), s)
        } else if !pos && ev == 1250000000000 {
            n1 < u192_bound() && xb.value >= pow10(12) && xb.value * m2 <= u128::MAX
                && rescale_ok(pow10(24), s)
        } else if !pos && ev == 1500000000000 {
            n1 < u192_bound() && xb.value >= pow10(12) && xb.value * m1 <= u128::MAX
                && rescale_ok(pow10(24), s)
        } else if !pos && ev % pow10(12) == 0 {
            let e = ev / pow10(12);
            &&& e <= u64::MAX
            &&& pow_fits(pow10(12), xb.value as nat, e, pow10(12))
            &&& int_pow_out(xb, e).value >= 1
            &&& rescale_ok(pow10(24), s)
        } else {
            false
        }
    }

    open spec fn pow_ens(self, rhs: Decimal, r: Decimal) -> bool {
        let s = self.scale;
        let xb = at_compute(self);
        let ev = to_scale_val(rhs, COMPUTE_SCALE);
        let pos = !rhs.negative && rhs.value != 0;
        if ev == 0 {
            r == at_scale(one_compute(), s)
        } else if pos && ev == 250000000000 {
            sqrt_twice_out(xb, r, s)
        } else if pos && ev == 500000000000 {
            sqrt_once_out(xb, r, s)
        } else if pos && ev == 1000000000000 {
            r == at_scale(xb, s)
        } else if pos && ev == 1250000000000 {
            mul_sqrt_twice_out(xb, r, s)
        } else if pos && ev == 1500000000000 {
            mul_sqrt_once_out(xb, r, s)
        } else if pos && ev == 2000000000000 {
            r == at_scale(mul_out(xb, self), s)
        } else if pos && ev % pow10(12) == 0 {
            r == at_scale(int_pow_out(xb, ev / pow10(12)), s)
        } else if !pos && ev == 250000000000 {
            recip_sqrt_twice_out(xb, r, s)
        } else if !pos && ev == 500000000000 {
            recip_sqrt_once_out(xb, r, s)
        } else if !pos && ev == 1000000000000 {
            r == at_scale(div_out(one_compute(), xb), s)
        } else if !pos && ev == 1250000000000 {
            recip_mul_sqrt_twice_out(xb, r, s)
        } else if !pos && ev == 1500000000000 {
            recip_mul_sqrt_once_out(xb, r, s)
        } else if !pos && ev % pow10(12) == 0 {
            r == at_scale(div_out(one_compute(), int_pow_out(xb, ev / pow10(12))), s)
        } else {
            true
        }
    }

    #[verifier::rlimit(100)]
    fn pow(self, rhs: Decimal) -> (r: Decimal) {
        let positive = rhs.is_positive();

        proof {
            lemma_pow10_12();
            lemma_pow10_pos(12);
        }
        let base = self.to_compute_scale();
        let exp = rhs.to_compute_scale();
        let ghost s: u8 = self.scale;
        let ghost xb: Decimal = at_compute(self);
        let ghost m1: nat = sqrt_bound(xb.value as nat);
        let ghost m2: nat = sqrt_bound(m1);
        proof {
            assert(base == xb);
        }

        let result: Decimal;
        if exp.is_zero() {
            result = Decimal::one();
            proof {
                assert(result == one_compute());
                lemma_rescale_from_bound(result, pow10(12), s);
            }
        } else if positive && exp == Decimal::zero_point_two_five() {
            // x^0.25 is the fourth root: a square root taken twice
            proof {
                lemma_sqrt_in_range(xb.value as nat);
            }
            let s1 = sqrt_checked(base);
            proof {
                lemma_second_sqrt_ok(xb.value as nat, s1.value as nat);
            }
            proof {
                crate::decimal::base::lemma_to_scale_identity(s1);
            }
            let s1c = s1.to_compute_scale();
            proof {
                assert(s1c == s1);
            }
            let s2 = sqrt_checked(s1c);
            proof {
                crate::decimal::base::lemma_to_scale_identity(s2);
            }
            result = s2.to_compute_scale();
            proof {
                assert(result == s2);
                lemma_sqrt_bound_mono(s1.value as nat, m1);
                lemma_rescale_from_bound(result, m2, s);
                assert(sqrt_twice_out(xb, at_scale(result, s), s));
            }
        } else if positive && exp == Decimal::zero_point_five() {
            // x^0.5 is the square root
            let s1 = sqrt_checked(base);
            proof {
                crate::decimal::base::lemma_to_scale_identity(s1);
            }
            result = s1.to_compute_scale();
            proof {
                assert(result == s1);
                lemma_rescale_from_bound(result, m1, s);
                assert(sqrt_once_out(xb, at_scale(result, s), s));
            }
        } else if positive && exp == Decimal::one() {
            result = base;
        } else if positive && exp == Decimal::one_point_two_five() {
            // x^1.25 is x times its fourth root
            proof {
                lemma_sqrt_in_range(xb.value as nat);
            }
            let s1 = sqrt_checked(base);
            proof {
                lemma_second_sqrt_ok(xb.value as nat, s1.value as nat);
            }
            proof {
                crate::decimal::base::lemma_to_scale_identity(s1);
            }
            let s1c = s1.to_compute_scale();
            proof {
                assert(s1c == s1);
            }
            let s2 = sqrt_checked(s1c);
            proof {
                crate::decimal::base::lemma_to_scale_identity(s2);
            }
            let s2c = s2.to_compute_scale();
            proof {
                assert(s2c == s2);
                lemma_sqrt_bound_mono(s1.value as nat, m1);
                lemma_mul_mono_bound(xb.value as nat, s2.value as nat, m2);
            }
            result = base.mul(s2c);
            proof {
                assert(result == mul_out(xb, s2));
                lemma_rescale_from_bound(result, (xb.value * m2) as nat / pow10(12), s);
                assert(mul_sqrt_twice_out(xb, at_scale(result, s), s));
            }
        } else if positive && exp == Decimal::one_point_five() {
            // x^1.5 is x times its square root
            let s1 = sqrt_checked(base);
            proof {
                crate::decimal::base::lemma_to_scale_identity(s1);
            }
            let s1c = s1.to_compute_scale();
            proof {
                assert(s1c == s1);
                lemma_mul_mono_bound(xb.value as nat, s1.value as nat, m1);
            }
            result = base.mul(s1c);
            proof {
                assert(result == mul_out(xb, s1));
                lemma_rescale_from_bound(result, (xb.value * m1) as nat / pow10(12), s);
                assert(mul_sqrt_once_out(xb, at_scale(result, s), s));
            }
        } else if positive && exp == Decimal::two() {
            result = base.mul(self);
            proof {
                assert(result == mul_out(xb, self));
                lemma_rescale_from_bound(result,
                    (xb.value * self.value) as nat / pow10(self.scale as nat), s);
            }
        } else if positive && exp.is_integer() {
            result = base.pow(exp.abs() as u128);
            proof {
                assert(result == int_pow_out(xb, to_scale_val(rhs, COMPUTE_SCALE) / pow10(12)));
            }
        } else if !positive && exp == Decimal::zero_point_two_five().neg() {
            // x^-0.25 is the reciprocal of the fourth root
            proof {
                lemma_sqrt_in_range(xb.value as nat);
            }
            let s1 = sqrt_checked(base);
            proof {
                lemma_second_sqrt_ok(xb.value as nat, s1.value as nat);
            }
            proof {
                crate::decimal::base::lemma_to_scale_identity(s1);
            }
            let s1c = s1.to_compute_scale();
            proof {
                assert(s1c == s1);
            }
            let s2 = sqrt_checked(s1c);
            proof {
                crate::decimal::base::lemma_to_scale_identity(s2);
            }
            let s2c = s2.to_compute_scale();
            proof {
                assert(s2c == s2);
                lemma_one_div_bound(s2.value as nat);
            }
            result = Decimal::one().div(s2c);
            proof {
                assert(result == div_out(one_compute(), s2));
                lemma_rescale_from_bound(result, pow10(24), s);
                assert(recip_sqrt_twice_out(xb, at_scale(result, s), s));
            }
        } else if !positive && exp == Decimal::zero_point_five().neg() {
            // x^-0.5 is the reciprocal of the square root
            let s1 = sqrt_checked(base);
            proof {
                crate::decimal::base::lemma_to_scale_identity(s1);
            }
            let s1c = s1.to_compute_scale();
            proof {
                assert(s1c == s1);
                lemma_one_div_bound(s1.value as nat);
            }
            result = Decimal::one().div(s1c);
            proof {
                assert(result == div_out(one_compute(), s1));
                lemma_rescale_from_bound(result, pow10(24), s);
                assert(recip_sqrt_once_out(xb, at_scale(result, s), s));
            }
        } else if !positive && exp == Decimal::one().neg() {
            // x^-1 is the reciprocal
            proof {
                lemma_one_div_bound(xb.value as nat);
            }
            result = Decimal::one().div(base);
            proof {
                assert(result == div_out(one_compute(), xb));
                lemma_rescale_from_bound(result, pow10(24), s);
            }
        } else if !positive && exp == Decimal::one_point_two_five().neg() {
            // x^-1.25 is the reciprocal of x^1.25
            proof {
                lemma_sqrt_in_range(xb.value as nat);
            }
            let s1 = sqrt_checked(base);
            proof {
                lemma_second_sqrt_ok(xb.value as nat, s1.value as nat);
            }
            proof {
                crate::decimal::base::lemma_to_scale_identity(s1);
            }
            let s1c = s1.to_compute_scale();
            proof {
                assert(s1c == s1);
            }
            let s2 = sqrt_checked(s1c);
            proof {
                crate::decimal::base::lemma_to_scale_identity(s2);
            }
            let s2c = s2.to_compute_scale();
            proof {
                assert(s2c == s2);
                lemma_sqrt_bound_mono(s1.value as nat, m1);
                lemma_mul_mono_bound(xb.value as nat, s2.value as nat, m2);
            }
            let q = base.mul(s2c);
            proof {
                assert(q == mul_out(xb, s2));
                lemma_product_positive(xb.value as nat, s2.value as nat);
                lemma_one_div_bound(q.value as nat);
            }
            result = Decimal::one().div(q);
            proof {
                assert(result == div_out(one_compute(), mul_out(xb, s2)));
                lemma_rescale_from_bound(result, pow10(24), s);
                assert(recip_mul_sqrt_twice_out(xb, at_scale(result, s), s));
            }
        } else if !positive && exp == Decimal::one_point_five().neg() {
            // x^-1.5 is the reciprocal of x^1.5
            let s1 = sqrt_checked(base);
            proof {
                crate::decimal::base::lemma_to_scale_identity(s1);
            }
            let s1c = s1.to_compute_scale();
            proof {
                assert(s1c == s1);
                lemma_mul_mono_bound(xb.value as nat, s1.value as nat, m1);
            }
            let q = base.mul(s1c);
            proof {
                assert(q == mul_out(xb, s1));
                lemma_product_positive(xb.value as nat, s1.value as nat);
                lemma_one_div_bound(q.value as nat);
            }
            result = Decimal::one().div(q);
            proof {
                assert(result == div_out(one_compute(), mul_out(xb, s1)));
                lemma_rescale_from_bound(result, pow10(24), s);
                assert(recip_mul_sqrt_once_out(xb, at_scale(result, s), s));
            }
        } else {
            // x^-N is the reciprocal of x^N
            let w = base.pow(exp.abs() as u128);
            proof {
                crate::decimal::base::lemma_to_scale_identity(w);
            }
            let wc = w.to_compute_scale();
            proof {
                assert(wc == w);
                assert(w == int_pow_out(xb, to_scale_val(rhs, COMPUTE_SCALE) / pow10(12)));
                lemma_one_div_bound(w.value as nat);
            }
            result = Decimal::one().div(wc);
            proof {
                assert(result == div_out(one_compute(), w));
                lemma_rescale_from_bound(result, pow10(24), s);
            }
        }
        let out = result.to_scale(self.scale);
        proof {
            let ev = to_scale_val(rhs, COMPUTE_SCALE);
            let pos = !rhs.negative && rhs.value != 0;
            assert(out == at_scale(result, s));
            if ev != 0 {
                assert(rhs.value != 0) by {
                    if rhs.value == 0 {
                        if COMPUTE_SCALE >= rhs.scale {
                            assert(0nat * pow10((COMPUTE_SCALE - rhs.scale) as nat) == 0)
                                by (nonlinear_arith);
                        } else {
                            vstd::arithmetic::div_mod::lemma_div_basics(
                                pow10((rhs.scale - COMPUTE_SCALE) as nat) as int,
                            );
                            crate::math::lemma_pow10_pos((rhs.scale - COMPUTE_SCALE) as nat);
                        }
                    }
                }
            }
            if ev == 0 {
                assert(self.pow_ens(rhs, out));
            } else if pos && ev == 250000000000 {
                assert(self.pow_ens(rhs, out));
            } else if pos && ev == 500000000000 {
                assert(self.pow_ens(rhs, out));
            } else if pos && ev == 1000000000000 {
                assert(self.pow_ens(rhs, out));
            } else if pos && ev == 1250000000000 {
                assert(self.pow_ens(rhs, out));
            } else if pos && ev == 1500000000000 {
                assert(self.pow_ens(rhs, out));
            } else if pos && ev == 2000000000000 {
                assert(self.pow_ens(rhs, out));
            } else if pos && ev % pow10(12) == 0 {
                assert(self.pow_ens(rhs, out));
            } else if !pos && ev == 250000000000 {
                assert(self.pow_ens(rhs, out));
            } else if !pos && ev == 500000000000 {
                assert(self.pow_ens(rhs, out));
            } else if !pos && ev == 1000000000000 {
                assert(self.pow_ens(rhs, out));
            } else if !pos && ev == 1250000000000 {
                assert(self.pow_ens(rhs, out));
            } else if !pos && ev == 1500000000000 {
                assert(self.pow_ens(rhs, out));
            } else if !pos && ev % pow10(12) == 0 {
                assert(self.pow_ens(rhs, out));
            } else {
                assert(self.pow_ens(rhs, out));
            }
        }
        out
    }
}

/// A wide decimal relabelled at the extended compute scale, fields
/// spelled out.
pub open spec fn big_at_compute_val(d: BigDecimal) -> nat {
    crate::decimal::big::big_to_scale_val(d, BIG_COMPUTE_SCALE)
}

/// What a wide square root result looks like.
pub open spec fn big_sqrt_rel(dv: nat, ds: nat, r: BigDecimal) -> bool {
    let n = dv * pow10(ds);
    &&& r.scale == ds
    &&& r.value.as_nat() * r.value.as_nat() <= n + 1
    &&& n < (r.value.as_nat() + 1) * (r.value.as_nat() + 1)
}

/// The magnitude of a wide truncating multiplication.
pub open spec fn big_mul_val(av: nat, a_scale: nat, bv: nat) -> nat {
    (av * bv) / pow10(a_scale)
}

/// The magnitude of a wide truncating division.
pub open spec fn big_div_val(av: nat, bv: nat, b_scale: nat) -> nat {
    (av * pow10(b_scale)) / bv
}

/// A wide square root taken once from the compute-scale operand.
pub open spec fn big_sqrt_once(xv: nat, r: BigDecimal) -> bool {
    big_sqrt_rel(xv, BIG_COMPUTE_SCALE as nat, r)
}

/// A wide square root taken twice from the compute-scale operand.
pub open spec fn big_sqrt_twice(xv: nat, r: BigDecimal) -> bool {
    exists|w: BigDecimal|
        #[trigger] big_sqrt_rel(xv, BIG_COMPUTE_SCALE as nat, w) && big_sqrt_rel(
            w.value.as_nat(),
            BIG_COMPUTE_SCALE as nat,
            r,
        )
}

/// The power of a [`BigDecimal`] with another [`BigDecimal`] as the
/// exponent: the same closed set of recognized exponents as the narrow
/// power, except that general integers are not handled at this width.
impl Pow<BigDecimal> for BigDecimal {
    open spec fn pow_req(self, rhs: BigDecimal) -> bool {
        let xv = big_at_compute_val(self);
        let ev = big_at_compute_val(rhs);
        let pos = !rhs.negative && rhs.value.as_nat() != 0;
        let n1 = xv * pow10(BIG_COMPUTE_SCALE as nat);
        &&& crate::decimal::big::big_to_scale_ok(self, BIG_COMPUTE_SCALE)
        &&& crate::decimal::big::big_to_scale_ok(rhs, BIG_COMPUTE_SCALE)
        &&& self.scale <= 38
        &&& if ev == 0 {
            true
        } else if pos && ev == 250000000000000000 {
            n1 < u192_bound()
        } else if pos && ev == 500000000000000000 {
            n1 < u192_bound()
        } else if pos && ev == 1000000000000000000 {
            true
        } else if pos && ev == 1250000000000000000 {
            n1 < u192_bound() && xv * big_sqrt_cap(big_sqrt_cap(xv)) < u192_bound()
        } else if pos && ev == 1500000000000000000 {
            n1 < u192_bound() && xv * big_sqrt_cap(xv) < u192_bound()
        } else if pos && ev == 2000000000000000000 {
            xv * self.value.as_nat() < u192_bound()
        } else if !pos && ev == 250000000000000000 {
            n1 < u192_bound() && xv >= 1
        } else if !pos && ev == 500000000000000000 {
            n1 < u192_bound() && xv >= 1
        } else if !pos && ev == 1000000000000000000 {
            xv >= 1
        } else if !pos && ev == 1250000000000000000 {
            n1 < u192_bound() && xv >= pow10(18) && xv * big_sqrt_cap(big_sqrt_cap(xv))
                < u192_bound()
        } else if !pos && ev == 1500000000000000000 {
            n1 < u192_bound() && xv >= pow10(18) && xv * big_sqrt_cap(xv) < u192_bound()
        } else {
            false
        }
    }

    open spec fn pow_ens(self, rhs: BigDecimal, r: BigDecimal) -> bool {
        let xv = big_at_compute_val(self);
        let ev = big_at_compute_val(rhs);
        let pos = !rhs.negative && rhs.value.as_nat() != 0;
        if ev == 0 {
            r.value.as_nat() == pow10(18) && r.scale == BIG_COMPUTE_SCALE && !r.negative
        } else if pos && ev == 250000000000000000 {
            big_sqrt_twice(xv, r) && r.scale == BIG_COMPUTE_SCALE
        } else if pos && ev == 500000000000000000 {
            big_sqrt_once(xv, r) && r.scale == BIG_COMPUTE_SCALE
        } else if pos && ev == 1000000000000000000 {
            r.value.as_nat() == xv && r.scale == BIG_COMPUTE_SCALE && r.negative
                == (self.negative && xv != 0)
        } else if pos && ev == 1250000000000000000 {
            exists|w: BigDecimal|
                #[trigger] big_sqrt_twice(xv, w) && r.value.as_nat() == big_mul_val(
                    xv,
                    BIG_COMPUTE_SCALE as nat,
                    w.value.as_nat(),
                ) && r.scale == BIG_COMPUTE_SCALE
        } else if pos && ev == 1500000000000000000 {
            exists|w: BigDecimal|
                #[trigger] big_sqrt_once(xv, w) && r.value.as_nat() == big_mul_val(
                    xv,
                    BIG_COMPUTE_SCALE as nat,
                    w.value.as_nat(),
                ) && r.scale == BIG_COMPUTE_SCALE
        } else if pos && ev == 2000000000000000000 {
            r.value.as_nat() == big_mul_val(xv, BIG_COMPUTE_SCALE as nat, self.value.as_nat())
                && r.scale == BIG_COMPUTE_SCALE
        } else if !pos && ev == 250000000000000000 {
            exists|w: BigDecimal|
                #[trigger] big_sqrt_twice(xv, w) && r.value.as_nat() == big_div_val(
                    pow10(18),
                    w.value.as_nat(),
                    BIG_COMPUTE_SCALE as nat,
                ) && r.scale == BIG_COMPUTE_SCALE
        } else if !pos && ev == 500000000000000000 {
            exists|w: BigDecimal|
                #[trigger] big_sqrt_once(xv, w) && r.value.as_nat() == big_div_val(
                    pow10(18),
                    w.value.as_nat(),
                    BIG_COMPUTE_SCALE as nat,
                ) && r.scale == BIG_COMPUTE_SCALE
        } else if !pos && ev == 1000000000000000000 {
            r.value.as_nat() == big_div_val(pow10(18), xv, BIG_COMPUTE_SCALE as nat)
                && r.scale == BIG_COMPUTE_SCALE
        } else if !pos && ev == 1250000000000000000 {
            exists|w: BigDecimal|
                #[trigger] big_sqrt_twice(xv, w) && r.value.as_nat() == big_div_val(
                    pow10(18),
                    big_mul_val(xv, BIG_COMPUTE_SCALE as nat, w.value.as_nat()),
                    BIG_COMPUTE_SCALE as nat,
                ) && r.scale == BIG_COMPUTE_SCALE
        } else if !pos && ev == 1500000000000000000 {
            exists|w: BigDecimal|
                #[trigger] big_sqrt_once(xv, w) && r.value.as_nat() == big_div_val(
                    pow10(18),
                    big_mul_val(xv, BIG_COMPUTE_SCALE as nat, w.value.as_nat()),
                    BIG_COMPUTE_SCALE as nat,
                ) && r.scale == BIG_COMPUTE_SCALE
        } else {
            true
        }
    }

    #[verifier::rlimit(100)]
    fn pow(self, rhs: BigDecimal) -> (r: BigDecimal) {
        let positive = !rhs.negative;

        proof {
            lemma_pow10_18_value();
        }
        let base = self.to_compute_scale();
        let exp = rhs.to_compute_scale();
        let ghost xv: nat = big_at_compute_val(self);
        let ghost ev: nat = big_at_compute_val(rhs);

        if exp.value.is_zero() {
            proof {
                lemma_big_ev_nonzero(rhs, ev);
            }
            return BigDecimal::one();
        }
        proof {
            lemma_big_ev_nonzero(rhs, ev);
        }
        let result: BigDecimal = if positive && exp.eq(&BigDecimal::zero_point_two_five()) {
            // x^0.25 is the fourth root: a square root taken twice
            let s1 = big_sqrt_checked(base);
            proof {
                lemma_big_second_sqrt(xv, s1.value.as_nat());
            }
            let s2 = big_sqrt_checked(s1);
            proof {
                assert(big_sqrt_rel(xv, BIG_COMPUTE_SCALE as nat, s1));
                assert(big_sqrt_twice(xv, s2));
            }
            s2
        } else if positive && exp.eq(&BigDecimal::zero_point_five()) {
            // x^0.5 is the square root
            let s1 = big_sqrt_checked(base);
            proof {
                assert(big_sqrt_once(xv, s1));
            }
            s1
        } else if positive && exp.eq(&BigDecimal::one()) {
            base
        } else if positive && exp.eq(&BigDecimal::one_point_two_five()) {
            // x^1.25 is x times its fourth root
            let s1 = big_sqrt_checked(base);
            proof {
                lemma_big_second_sqrt(xv, s1.value.as_nat());
            }
            let s2 = big_sqrt_checked(s1);
            proof {
                lemma_big_mul_cap(xv, s1.value.as_nat(), s2.value.as_nat());
            }
            let out = base.mul(s2);
            proof {
                assert(big_sqrt_rel(xv, BIG_COMPUTE_SCALE as nat, s1));
                assert(big_sqrt_twice(xv, s2));
                assert(out.value.as_nat() == big_mul_val(xv, BIG_COMPUTE_SCALE as nat,
                    s2.value.as_nat()));
            }
            out
        } else if positive && exp.eq(&BigDecimal::one_point_five()) {
            // x^1.5 is x times its square root
            let s1 = big_sqrt_checked(base);
            proof {
                lemma_big_mul_cap_once(xv, s1.value.as_nat());
            }
            let out = base.mul(s1);
            proof {
                assert(big_sqrt_once(xv, s1));
                assert(out.value.as_nat() == big_mul_val(xv, BIG_COMPUTE_SCALE as nat,
                    s1.value.as_nat()));
            }
            out
        } else if positive && exp.eq(&BigDecimal::two()) {
            let out = base.mul(self);
            proof {
                assert(out.value.as_nat() == big_mul_val(xv, BIG_COMPUTE_SCALE as nat,
                    self.value.as_nat()));
            }
            out
        } else if !positive && exp.eq(&BigDecimal::zero_point_two_five().neg()) {
            // x^-0.25 is the reciprocal of the fourth root
            let s1 = big_sqrt_checked(base);
            proof {
                lemma_big_second_sqrt(xv, s1.value.as_nat());
                lemma_big_sqrt_positive(xv, s1.value.as_nat());
            }
            let s2 = big_sqrt_checked(s1);
            proof {
                lemma_big_sqrt_positive(s1.value.as_nat(), s2.value.as_nat());
                lemma_big_recip_fits();
                assert(big_sqrt_rel(xv, BIG_COMPUTE_SCALE as nat, s1));
                assert(big_sqrt_twice(xv, s2));
            }
            let out = BigDecimal::one().div(s2);
            proof {
                assert(out.value.as_nat() == big_div_val(pow10(18), s2.value.as_nat(),
                    BIG_COMPUTE_SCALE as nat));
            }
            out
        } else if !positive && exp.eq(&BigDecimal::zero_point_five().neg()) {
            // x^-0.5 is the reciprocal of the square root
            let s1 = big_sqrt_checked(base);
            proof {
                lemma_big_sqrt_positive(xv, s1.value.as_nat());
                lemma_big_recip_fits();
            }
            let out = BigDecimal::one().div(s1);
            proof {
                assert(big_sqrt_once(xv, s1));
                assert(out.value.as_nat() == big_div_val(pow10(18), s1.value.as_nat(),
                    BIG_COMPUTE_SCALE as nat));
            }
            out
        } else if !positive && exp.eq(&BigDecimal::one().neg()) {
            // x^-1 is the reciprocal
            proof {
                lemma_big_recip_fits();
            }
            let out = BigDecimal::one().div(base);
            proof {
                assert(out.value.as_nat() == big_div_val(pow10(18), xv,
                    BIG_COMPUTE_SCALE as nat));
            }
            out
        } else if !positive && exp.eq(&BigDecimal::one_point_two_five().neg()) {
            // x^-1.25 is the reciprocal of x^1.25
            let s1 = big_sqrt_checked(base);
            proof {
                lemma_big_second_sqrt(xv, s1.value.as_nat());
                lemma_big_sqrt_at_least(xv, s1.value.as_nat());
            }
            let s2 = big_sqrt_checked(s1);
            proof {
                lemma_big_sqrt_at_least(s1.value.as_nat(), s2.value.as_nat());
                lemma_big_mul_cap(xv, s1.value.as_nat(), s2.value.as_nat());
            }
            let q = base.mul(s2);
            proof {
                lemma_big_product_positive(xv, s2.value.as_nat());
                lemma_big_recip_fits();
                assert(big_sqrt_rel(xv, BIG_COMPUTE_SCALE as nat, s1));
                assert(big_sqrt_twice(xv, s2));
            }
            let out = BigDecimal::one().div(q);
            proof {
                assert(q.value.as_nat() == big_mul_val(xv, BIG_COMPUTE_SCALE as nat,
                    s2.value.as_nat()));
                assert(out.value.as_nat() == big_div_val(pow10(18), q.value.as_nat(),
                    BIG_COMPUTE_SCALE as nat));
            }
            out
        } else {
            // x^-1.5 is the reciprocal of x^1.5
            let s1 = big_sqrt_checked(base);
            proof {
                lemma_big_sqrt_at_least(xv, s1.value.as_nat());
                lemma_big_mul_cap_once(xv, s1.value.as_nat());
            }
            let q = base.mul(s1);
            proof {
                lemma_big_product_positive(xv, s1.value.as_nat());
                lemma_big_recip_fits();
            }
            let out = BigDecimal::one().div(q);
            proof {
                assert(big_sqrt_once(xv, s1));
                assert(q.value.as_nat() == big_mul_val(xv, BIG_COMPUTE_SCALE as nat,
                    s1.value.as_nat()));
                assert(out.value.as_nat() == big_div_val(pow10(18), q.value.as_nat(),
                    BIG_COMPUTE_SCALE as nat));
            }
            out
        };
        proof {
            let pos = !rhs.negative && rhs.value.as_nat() != 0;
            if pos && ev == 250000000000000000 {
                assert(self.pow_ens(rhs, result));
            } else if pos && ev == 500000000000000000 {
                assert(self.pow_ens(rhs, result));
            } else if pos && ev == 1000000000000000000 {
                assert(self.pow_ens(rhs, result));
            } else if pos && ev == 1250000000000000000 {
                assert(self.pow_ens(rhs, result));
            } else if pos && ev == 1500000000000000000 {
                assert(self.pow_ens(rhs, result));
            } else if pos && ev == 2000000000000000000 {
                assert(self.pow_ens(rhs, result));
            } else if !pos && ev == 250000000000000000 {
                assert(self.pow_ens(rhs, result));
            } else if !pos && ev == 500000000000000000 {
                assert(self.pow_ens(rhs, result));
            } else if !pos && ev == 1000000000000000000 {
                assert(self.pow_ens(rhs, result));
            } else if !pos && ev == 1250000000000000000 {
                assert(self.pow_ens(rhs, result));
            } else if !pos && ev == 1500000000000000000 {
                assert(self.pow_ens(rhs, result));
            } else {
                assert(self.pow_ens(rhs, result));
            }
        }
        result
    }
}

/// `10^18` written out.
proof fn lemma_pow10_18_value()
    ensures
        pow10(18) == 1000000000000000000nat,
{
    reveal_with_fuel(pow10, 20);
}

/// A compute-scale magnitude of zero forces the wide exponent to zero.
proof fn lemma_big_ev_nonzero(rhs: BigDecimal, ev: nat)
    requires
        ev == big_at_compute_val(rhs),
    ensures
        ev != 0 ==> rhs.value.as_nat() != 0,
{
    if rhs.value.as_nat() == 0 {
        if BIG_COMPUTE_SCALE >= rhs.scale {
            assert(0nat * pow10((BIG_COMPUTE_SCALE - rhs.scale) as nat) == 0)
                by (nonlinear_arith);
        } else {
            vstd::arithmetic::div_mod::lemma_div_basics(
                pow10((rhs.scale - BIG_COMPUTE_SCALE) as nat) as int,
            );
            lemma_pow10_pos((rhs.scale - BIG_COMPUTE_SCALE) as nat);
        }
    }
}

/// An upper cap for a wide square root result.
pub open spec fn big_sqrt_cap(v: nat) -> nat {
    isqrt(v * pow10(18)) + 1
}

/// The wide square root, with the error case proven unreachable.
fn big_sqrt_checked(d: BigDecimal) -> (r: BigDecimal)
    requires
        d.scale == BIG_COMPUTE_SCALE,
        d.value.as_nat() * pow10(d.scale as nat) < u192_bound(),
    ensures
        big_sqrt_rel(d.value.as_nat(), d.scale as nat, r),
        r.scale == BIG_COMPUTE_SCALE,
        r.value.as_nat() <= big_sqrt_cap(d.value.as_nat()),
        r.negative == (d.negative && r.value.as_nat() != 0),
{
    let out = match d.sqrt() {
        Ok(v) => v,
        Err(_) => {
            proof {
                assert(false);
            }
            d
        },
    };
    proof {
        lemma_sqrt_result_bound((d.value.as_nat() * pow10(18)) as nat, out.value.as_nat());
    }
    out
}

/// The second wide square root stays inside the scratch range.
proof fn lemma_big_second_sqrt(v: nat, s1: nat)
    requires
        v * pow10(18) < u192_bound(),
        s1 <= big_sqrt_cap(v),
    ensures
        s1 * pow10(18) < u192_bound(),
{
    let n = v * pow10(18);
    lemma_isqrt_bounds(n);
    crate::uint::lemma_limb_constants();
    lemma_pow10_18_value();
    assert(isqrt(n) < 0x1_0000_0000_0000_0000_0000_0000nat) by (nonlinear_arith)
        requires
            isqrt(n) * isqrt(n) <= n,
            n < u192_bound(),
            u192_bound() == 0x1_0000_0000_0000_0000_0000_0000nat
                * 0x1_0000_0000_0000_0000_0000_0000nat,
    ;
    assert(s1 * pow10(18) <= 0x1_0000_0000_0000_0000_0000_0000nat * 1000000000000000000nat)
        by (nonlinear_arith)
        requires
            s1 <= isqrt(n) + 1,
            isqrt(n) + 1 <= 0x1_0000_0000_0000_0000_0000_0000nat,
            pow10(18) == 1000000000000000000nat,
    ;
    assert(0x1_0000_0000_0000_0000_0000_0000nat * 1000000000000000000nat < u192_bound()) by {
        assert(u192_bound()
            == 0x1_0000_0000_0000_0000_0000_0000_0000_0000_0000_0000_0000_0000nat);
    }
}

/// A positive wide operand keeps its square root positive.
proof fn lemma_big_sqrt_positive(v: nat, r: nat)
    requires
        v >= 1,
        v * pow10(18) < (r + 1) * (r + 1),
    ensures
        r >= 1,
{
    lemma_pow10_18_value();
    assert(r >= 1) by (nonlinear_arith)
        requires
            v * pow10(18) < (r + 1) * (r + 1),
            v >= 1,
            pow10(18) >= 2,
    ;
}

/// An operand of at least one keeps its square root at the compute scale.
proof fn lemma_big_sqrt_at_least(v: nat, r: nat)
    requires
        v >= pow10(18),
        v * pow10(18) < (r + 1) * (r + 1),
    ensures
        r >= pow10(18),
{
    assert(r >= pow10(18)) by (nonlinear_arith)
        requires
            v * pow10(18) < (r + 1) * (r + 1),
            v >= pow10(18),
    ;
}

/// The product against a capped square root stays inside the scratch
/// range.
proof fn lemma_big_mul_cap(v: nat, s1: nat, s2: nat)
    requires
        s1 <= big_sqrt_cap(v),
        s2 <= big_sqrt_cap(s1),
        v * big_sqrt_cap(big_sqrt_cap(v)) < u192_bound(),
    ensures
        v * s2 < u192_bound(),
{
    lemma_big_cap_mono(s1, big_sqrt_cap(v));
    assert(v * s2 <= v * big_sqrt_cap(big_sqrt_cap(v))) by (nonlinear_arith)
        requires s2 <= big_sqrt_cap(big_sqrt_cap(v)), v >= 0;
}

/// The product against one capped square root stays inside the scratch
/// range.
proof fn lemma_big_mul_cap_once(v: nat, s1: nat)
    requires
        s1 <= big_sqrt_cap(v),
        v * big_sqrt_cap(v) < u192_bound(),
    ensures
        v * s1 < u192_bound(),
{
    assert(v * s1 <= v * big_sqrt_cap(v)) by (nonlinear_arith)
        requires s1 <= big_sqrt_cap(v), v >= 0;
}

/// The square root cap is monotone.
proof fn lemma_big_cap_mono(a: nat, b: nat)
    requires
        a <= b,
    ensures
        big_sqrt_cap(a) <= big_sqrt_cap(b),
{
    lemma_pow10_pos(18);
    assert(a * pow10(18) <= b * pow10(18)) by (nonlinear_arith)
        requires a <= b, pow10(18) >= 1;
    crate::math::lemma_isqrt_mono(a * pow10(18), b * pow10(18));
}

/// The wide reciprocal numerator `10^18 * 10^18` fits the scratch range.
proof fn lemma_big_recip_fits()
    ensures
        pow10(18) * pow10(18) < u192_bound(),
        pow10(18) >= 1,
{
    lemma_pow10_18_value();
    crate::uint::lemma_limb_constants();
    assert(1000000000000000000nat * 1000000000000000000nat < u192_bound()) by {
        assert(u192_bound()
            == 0x1_0000_0000_0000_0000_0000_0000_0000_0000_0000_0000_0000_0000nat);
    }
}

/// Products of wide magnitudes at least the compute unit keep that floor
/// after rescaling.
proof fn lemma_big_product_positive(a: nat, b: nat)
    requires
        a >= pow10(18),
        b >= pow10(18),
    ensures
        (a * b) / pow10(18) >= pow10(18),
{
    lemma_pow10_pos(18);
    assert(a * b >= pow10(18) * pow10(18)) by (nonlinear_arith)
        requires a >= pow10(18), b >= pow10(18);
    assert((pow10(18) * pow10(18)) / pow10(18) == pow10(18)) by {
        vstd::arithmetic::div_mod::lemma_div_multiples_vanish(pow10(18) as int, pow10(18) as int);
    }
    vstd::arithmetic::div_mod::lemma_div_is_ordered((pow10(18) * pow10(18)) as int, (a
        * b) as int, pow10(18) as int);
}

/// A compute-scale magnitude below a bound that survives rescaling can be
/// relabelled at the target scale.
proof fn lemma_rescale_from_bound(d: Decimal, m: nat, s: u8)
    requires
        d.scale == COMPUTE_SCALE,
        d.value <= m,
        rescale_ok(m, s),
        s <= 38,
    ensures
        to_scale_ok(d, s),
{
    if s >= COMPUTE_SCALE {
        lemma_pow10_pos((s - COMPUTE_SCALE) as nat);
        assert(d.value * pow10((s - COMPUTE_SCALE) as nat) <= m * pow10(
            (s - COMPUTE_SCALE) as nat,
        )) by (nonlinear_arith)
            requires d.value <= m, pow10((s - COMPUTE_SCALE) as nat) >= 1;
    }
}

/// A square root bound grows with the operand.
proof fn lemma_sqrt_bound_mono(a: nat, b: nat)
    requires
        a <= b,
    ensures
        sqrt_bound(a) <= sqrt_bound(b),
{
    lemma_pow10_pos(12);
    assert(a * pow10(12) <= b * pow10(12)) by (nonlinear_arith)
        requires a <= b, pow10(12) >= 1;
    crate::math::lemma_isqrt_mono(a * pow10(12), b * pow10(12));
}

/// A second square root of anything in the chain stays in range.
proof fn lemma_second_sqrt_ok(v: nat, s1: nat)
    requires
        v * pow10(12) < u192_bound(),
        s1 <= sqrt_bound(v),
    ensures
        s1 * pow10(12) < u192_bound(),
{
    lemma_sqrt_in_range(v);
    lemma_pow10_pos(12);
    assert(s1 * pow10(12) <= sqrt_bound(v) * pow10(12)) by (nonlinear_arith)
        requires s1 <= sqrt_bound(v), pow10(12) >= 1;
}

/// Products against a bounded factor stay bounded, before and after the
/// truncating division.
proof fn lemma_mul_mono_bound(a: nat, b: nat, m: nat)
    requires
        b <= m,
        a * m <= u128::MAX,
    ensures
        a * b <= u128::MAX,
        (a * b) / pow10(12) <= (a * m) / pow10(12),
{
    lemma_pow10_pos(12);
    assert(a * b <= a * m) by (nonlinear_arith)
        requires b <= m, a >= 0;
    vstd::arithmetic::div_mod::lemma_div_is_ordered((a * b) as int, (a * m) as int, pow10(
        12,
    ) as int);
}

/// A product of two magnitudes at least one, scaled down, is at least
/// one when both reach the scale.
proof fn lemma_product_positive(a: nat, b: nat)
    requires
        a >= pow10(12),
        b >= pow10(12),
    ensures
        (a * b) / pow10(12) >= pow10(12),
{
    lemma_pow10_pos(12);
    assert(a * b >= pow10(12) * pow10(12)) by (nonlinear_arith)
        requires a >= pow10(12), b >= pow10(12);
    assert((pow10(12) * pow10(12)) / pow10(12) == pow10(12)) by {
        vstd::arithmetic::div_mod::lemma_div_multiples_vanish(pow10(12) as int, pow10(12) as int);
    }
    vstd::arithmetic::div_mod::lemma_div_is_ordered((pow10(12) * pow10(12)) as int, (a
        * b) as int, pow10(12) as int);
}

/// The reciprocal path: `one` divided by a positive magnitude is at most
/// `10^24`, and the division is defined.
proof fn lemma_one_div_bound(y: nat)
    requires
        y >= 1,
    ensures
        (1000000000000nat * pow10(12)) / y <= pow10(24),
        1000000000000nat * pow10(12) <= u128::MAX,
{
    lemma_pow10_12();
    crate::math::lemma_pow10_adds(12, 12);
    assert((1000000000000nat * pow10(12)) / y <= 1000000000000nat * pow10(12)) by {
        vstd::arithmetic::div_mod::lemma_div_nonincreasing(
            (1000000000000nat * pow10(12)) as int,
            y as int,
        );
    }
}

/// `10^12` and `10^24` written out.
proof fn lemma_pow10_12()
    ensures
        pow10(12) == 1000000000000nat,
        pow10(24) == 1000000000000000000000000nat,
{
    reveal_with_fuel(pow10, 26);
}

/// The square root, with the error case proven unreachable: the callers
/// pre-scaled operand fits in 192 bits.
fn sqrt_checked(d: Decimal) -> (r: Decimal)
    requires
        d.scale == COMPUTE_SCALE,
        d.value * pow10(d.scale as nat) < u192_bound(),
    ensures
        sqrt_rel(d, r),
        r.value <= sqrt_bound(d.value as nat),
        d.value >= 1 ==> r.value >= 1,
        d.value >= pow10(12) ==> r.value >= pow10(12),
{
    let out = match d.sqrt() {
        Ok(v) => v,
        Err(_) => {
            proof {
                assert(false);
            }
            d
        },
    };
    proof {
        let n = d.value * pow10(12);
        lemma_isqrt_bounds(n as nat);
        lemma_sqrt_result_bound(n as nat, out.value as nat);
        lemma_pow10_12();
        lemma_pow10_pos(12);
        if d.value >= 1 {
            assert(n >= pow10(12)) by (nonlinear_arith)
                requires d.value >= 1, n == d.value * pow10(12), pow10(12) >= 1;
            assert(out.value >= 1) by (nonlinear_arith)
                requires
                    n < (out.value + 1) * (out.value + 1),
                    n >= pow10(12),
                    pow10(12) >= 2,
            ;
        }
        if d.value >= pow10(12) {
            assert(n >= pow10(12) * pow10(12)) by (nonlinear_arith)
                requires d.value >= pow10(12), n == d.value * pow10(12);
            assert(out.value >= pow10(12)) by (nonlinear_arith)
                requires
                    n < (out.value + 1) * (out.value + 1),
                    n >= pow10(12) * pow10(12),
            ;
        }
    }
    out
}

/// A value whose square is at most `n + 1` is at most one above the
/// integer square root of `n`.
proof fn lemma_sqrt_result_bound(n: nat, r: nat)
    requires
        r * r <= n + 1,
    ensures
        r <= isqrt(n) + 1,
{
    lemma_isqrt_bounds(n);
    if r >= isqrt(n) + 2 {
        assert(false) by (nonlinear_arith)
            requires
                r * r <= n + 1,
                r >= isqrt(n) + 2,
                n < (isqrt(n) + 1) * (isqrt(n) + 1),
        ;
    }
}

/// The square root of anything below `2^192` is below `2^96`, which
/// leaves room for another pre-scaling by `10^12`.
proof fn lemma_sqrt_in_range(v: nat)
    requires
        v * pow10(12) < u192_bound(),
    ensures
        sqrt_bound(v) <= 0x1_0000_0000_0000_0000_0000_0000nat,
        sqrt_bound(v) * pow10(12) < u192_bound(),
{
    let n = v * pow10(12);
    lemma_isqrt_bounds(n);
    crate::uint::lemma_limb_constants();
    lemma_pow10_12();
    assert(isqrt(n) < 0x1_0000_0000_0000_0000_0000_0000nat) by (nonlinear_arith)
        requires
            isqrt(n) * isqrt(n) <= n,
            n < u192_bound(),
            u192_bound() == 0x1_0000_0000_0000_0000_0000_0000nat
                * 0x1_0000_0000_0000_0000_0000_0000nat,
    ;
    assert(sqrt_bound(v) * pow10(12) <= 0x1_0000_0000_0000_0000_0000_0000nat
        * 1000000000000nat) by (nonlinear_arith)
        requires
            sqrt_bound(v) <= 0x1_0000_0000_0000_0000_0000_0000nat,
            pow10(12) == 1000000000000nat,
    ;
    assert(0x1_0000_0000_0000_0000_0000_0000nat * 1000000000000nat < u192_bound()) by {
        assert(u192_bound()
            == 0x1_0000_0000_0000_0000_0000_0000_0000_0000_0000_0000_0000_0000nat);
    }
}

/// `one()` relabelled at any scale up to 38 is exactly `10^scale`.
proof fn lemma_one_at_scale(s: nat)
    requires
        s <= 38,
    ensures
        to_scale_ok(Decimal { value: 1000000000000, scale: COMPUTE_SCALE, negative: false },
            s as u8),
        to_scale_val(Decimal { value: 1000000000000, scale: COMPUTE_SCALE, negative: false },
            s as u8) == pow10(s),
{
    lemma_pow10_pos(s);
    assert(pow10(12) == 1000000000000nat) by {
        reveal_with_fuel(pow10, 14);
    }
    if s >= 12 {
        lemma_pow10_adds(12, (s - 12) as nat);
        lemma_pow10_increases(s, 38);
        lemma_pow10_38_fits();
    } else {
        lemma_pow10_adds(s, (12 - s) as nat);
        lemma_pow10_pos((12 - s) as nat);
        assert(pow10(12) / pow10((12 - s) as nat) == pow10(s)) by {
            vstd::arithmetic::div_mod::lemma_div_multiples_vanish(
                pow10(s) as int,
                pow10((12 - s) as nat) as int,
            );
            assert(pow10((12 - s) as nat) * pow10(s) == pow10(s) * pow10((12 - s) as nat))
                by (nonlinear_arith);
        }
    }
}

} // verus!
