//! Multiplication that rounds the magnitude away from zero.

use vstd::prelude::*;

use crate::decimal::base::Decimal;
use crate::math::pow10;

verus! {

pub trait MulUp<T>: Sized {
    /// The inputs `mul_up` accepts.
    spec fn mul_up_req(self, rhs: T) -> bool;

    /// What `mul_up` returns.
    spec fn mul_up_ens(self, rhs: T, r: Self) -> bool;

    /// Multiply another value against itself and round up (ceiling) the
    /// magnitude.
    fn mul_up(self, rhs: T) -> (r: Self)
        requires
            self.mul_up_req(rhs),
        ensures
            self.mul_up_ens(rhs, r),
    ;
}

/// Multiply another [`Decimal`] against itself and round up: adding
/// `denominator - 1` before the final division turns any non-zero
/// remainder into one more unit; zero is coerced to non-negative.
impl MulUp<Decimal> for Decimal {
    open spec fn mul_up_req(self, rhs: Decimal) -> bool {
        rhs.scale <= 38 && self.value * rhs.value + pow10(rhs.scale as nat) - 1 <= u128::MAX
    }

    open spec fn mul_up_ens(self, rhs: Decimal, r: Decimal) -> bool {
        r.value == (self.value * rhs.value + pow10(rhs.scale as nat) - 1) as nat / pow10(
            rhs.scale as nat,
        ) && r.scale == self.scale && r.negative == ((self.negative != rhs.negative)
            && r.value != 0)
    }

    fn mul_up(self, rhs: Decimal) -> (r: Decimal) {
        let denominator = rhs.denominator();
        Decimal::new(
            (self.value * rhs.value + (denominator - 1)) / denominator,
            self.scale,
            self.negative != rhs.negative,
        )
    }
}

} // verus!
