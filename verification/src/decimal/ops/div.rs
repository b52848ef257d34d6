//! Division; the numerator is pre-scaled by the divisor's denominator.

use vstd::prelude::*;

use crate::decimal::base::Decimal;
use crate::decimal::big::BigDecimal;
use crate::math::{lemma_pow10_pos, pow10};
use crate::uint::{u192_bound, U192};

verus! {

pub trait Div<T>: Sized {
    /// The inputs `div` accepts: a non-zero divisor and a scaled numerator
    /// that stays representable.
    spec fn div_req(self, rhs: T) -> bool;

    /// What `div` returns.
    spec fn div_ens(self, rhs: T, r: Self) -> bool;

    /// Divide the value by another, including signed division.
    fn div(self, rhs: T) -> (r: Self)
        requires
            self.div_req(rhs),
        ensures
            self.div_ens(rhs, r),
    ;
}

/// Divide a [`Decimal`] over another: the numerator is multiplied by the
/// divisor's denominator and then divided by the divisor's magnitude,
/// truncating toward zero; the result sign is the exclusive or of the
/// operand signs, with zero coerced to non-negative.
impl Div<Decimal> for Decimal {
    open spec fn div_req(self, rhs: Decimal) -> bool {
        rhs.scale <= 38 && rhs.value != 0 && self.value * pow10(rhs.scale as nat) <= u128::MAX
    }

    open spec fn div_ens(self, rhs: Decimal, r: Decimal) -> bool {
        r.value == (self.value * pow10(rhs.scale as nat)) as nat / rhs.value as nat && r.scale
            == self.scale && r.negative == ((self.negative != rhs.negative) && r.value != 0)
    }

    fn div(self, rhs: Decimal) -> (r: Decimal) {
        Decimal::new(
            (self.value * rhs.denominator()) / rhs.value,
            self.scale,
            self.negative != rhs.negative,
        )
    }
}

/// Divide a [`BigDecimal`] over another: the wide numerator is multiplied
/// by the divisor's denominator and divided by the divisor's magnitude,
/// truncating toward zero; the result sign is the exclusive or of the
/// operand signs.
impl Div<BigDecimal> for BigDecimal {
    open spec fn div_req(self, rhs: BigDecimal) -> bool {
        rhs.scale <= 38 && rhs.value.as_nat() != 0 && self.value.as_nat() * pow10(
            rhs.scale as nat,
        ) < u192_bound()
    }

    open spec fn div_ens(self, rhs: BigDecimal, r: BigDecimal) -> bool {
        r.value.as_nat() == (self.value.as_nat() * pow10(rhs.scale as nat))
            / rhs.value.as_nat() && r.scale == self.scale && r.negative == ((self.negative
            != rhs.negative) && r.value.as_nat() != 0)
    }

    fn div(self, rhs: BigDecimal) -> (r: BigDecimal) {
        proof {
            lemma_pow10_pos(rhs.scale as nat);
        }
        let product = match self.value.checked_mul(rhs.denominator()) {
            Some(p) => p,
            None => {
                proof {
                    assert(false);
                }
                U192(0, 0, 0)
            },
        };
        let value = match product.checked_div(rhs.value) {
            Some(q) => q,
            None => {
                proof {
                    assert(false);
                }
                U192(0, 0, 0)
            },
        };
        BigDecimal::new(value, self.scale, self.negative != rhs.negative)
    }
}

} // verus!
