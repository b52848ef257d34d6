//! Negation.

use vstd::prelude::*;

use crate::decimal::base::Decimal;
use crate::decimal::big::BigDecimal;

verus! {

pub trait Neg<T>: Sized {
    /// What `neg` returns.
    spec fn neg_ens(self, r: Self) -> bool;

    /// Negate the value; zero stays untouched.
    fn neg(self) -> (r: Self)
        ensures
            self.neg_ens(r),
    ;
}

/// Negation for [`Decimal`]: flip the sign of a non-zero value, leave zero
/// as it is.
impl Neg<Decimal> for Decimal {
    open spec fn neg_ens(self, r: Decimal) -> bool {
        r == if self.value == 0 {
            self
        } else {
            Decimal { negative: !self.negative, ..self }
        }
    }

    fn neg(self) -> (r: Decimal) {
        if self.is_negative() {
            Decimal { value: self.value, scale: self.scale, negative: false }
        } else if self.is_positive() {
            Decimal { value: self.value, scale: self.scale, negative: true }
        } else {
            self
        }
    }
}

/// Negation for [`BigDecimal`]: flip the sign of a non-zero value, leave
/// zero as it is.
impl Neg<BigDecimal> for BigDecimal {
    open spec fn neg_ens(self, r: BigDecimal) -> bool {
        r == if self.value.as_nat() == 0 {
            self
        } else {
            BigDecimal { negative: !self.negative, ..self }
        }
    }

    fn neg(self) -> (r: BigDecimal) {
        if self.is_negative() {
            BigDecimal { value: self.value, scale: self.scale, negative: false }
        } else if self.is_positive() {
            BigDecimal { value: self.value, scale: self.scale, negative: true }
        } else {
            self
        }
    }
}

} // verus!
