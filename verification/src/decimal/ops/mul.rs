//! Multiplication; the result keeps the left operand's scale.

use vstd::prelude::*;

use crate::decimal::base::Decimal;
use crate::decimal::big::BigDecimal;
use crate::math::{lemma_pow10_pos, pow10};
use crate::uint::{u192_bound, U192};

verus! {

pub trait Mul<T>: Sized {
    /// The inputs `mul` accepts: those whose raw product stays
    /// representable.
    spec fn mul_req(self, rhs: T) -> bool;

    /// What `mul` returns.
    spec fn mul_ens(self, rhs: T, r: Self) -> bool;

    /// Multiply another value against itself, including signed
    /// multiplication.
    fn mul(self, rhs: T) -> (r: Self)
        requires
            self.mul_req(rhs),
        ensures
            self.mul_ens(rhs, r),
    ;
}

/// Multiply another [`Decimal`] against itself: the magnitudes are
/// multiplied and divided by the right operand's denominator, truncating;
/// the result sign is the exclusive or of the operand signs, with zero
/// coerced to non-negative.
impl Mul<Decimal> for Decimal {
    open spec fn mul_req(self, rhs: Decimal) -> bool {
        rhs.scale <= 38 && self.value * rhs.value <= u128::MAX
    }

    open spec fn mul_ens(self, rhs: Decimal, r: Decimal) -> bool {
        r.value == (self.value * rhs.value) as nat / pow10(rhs.scale as nat) && r.scale
            == self.scale && r.negative == ((self.negative != rhs.negative) && r.value != 0)
    }

    fn mul(self, rhs: Decimal) -> (r: Decimal) {
        Decimal::new(
            (self.value * rhs.value) / rhs.denominator(),
            self.scale,
            self.negative != rhs.negative,
        )
    }
}

/// Multiply an unsigned integer against a [`Decimal`]: the magnitude is
/// scaled directly, sign and scale stay.
impl Mul<u128> for Decimal {
    open spec fn mul_req(self, rhs: u128) -> bool {
        self.value * rhs <= u128::MAX
    }

    open spec fn mul_ens(self, rhs: u128, r: Decimal) -> bool {
        r.value == self.value * rhs && r.scale == self.scale && r.negative == (self.negative
            && r.value != 0)
    }

    fn mul(self, rhs: u128) -> (r: Decimal) {
        Decimal::new(self.value * rhs, self.scale, self.negative)
    }
}

/// Multiply another [`BigDecimal`] against itself: the wide magnitudes
/// are multiplied and divided by the left operand's denominator,
/// truncating; the result sign is the exclusive or of the operand signs,
/// with zero coerced to non-negative.
impl Mul<BigDecimal> for BigDecimal {
    open spec fn mul_req(self, rhs: BigDecimal) -> bool {
        self.scale <= 38 && self.value.as_nat() * rhs.value.as_nat() < u192_bound()
    }

    open spec fn mul_ens(self, rhs: BigDecimal, r: BigDecimal) -> bool {
        r.value.as_nat() == (self.value.as_nat() * rhs.value.as_nat()) / pow10(
            self.scale as nat,
        ) && r.scale == self.scale && r.negative == ((self.negative != rhs.negative)
            && r.value.as_nat() != 0)
    }

    fn mul(self, rhs: BigDecimal) -> (r: BigDecimal) {
        proof {
            lemma_pow10_pos(self.scale as nat);
        }
        let product = match self.value.checked_mul(rhs.value) {
            Some(p) => p,
            None => {
                proof {
                    assert(false);
                }
                U192(0, 0, 0)
            },
        };
        let value = match product.checked_div(self.denominator()) {
            Some(q) => q,
            None => {
                proof {
                    assert(false);
                }
                U192(0, 0, 0)
            },
        };
        BigDecimal::new(value, self.scale, self.negative != rhs.negative)
    }
}

} // verus!
