//! Scale-aware comparison with an explicit sign-case matrix.

use vstd::prelude::*;

use crate::decimal::base::Decimal;
use crate::decimal::errors::ErrorCode;

verus! {

/// The order of two same-scale decimals, by the four-way sign matrix:
/// both negative compares magnitudes inverted, mixed signs resolve by
/// sign alone, both non-negative compares magnitudes directly.
pub open spec fn lt_val(a: Decimal, b: Decimal) -> bool {
    if a.negative && b.negative {
        a.value > b.value
    } else if a.negative && !b.negative {
        true
    } else if !a.negative && b.negative {
        false
    } else {
        a.value < b.value
    }
}

/// Same-scale equality: magnitude and sign agree.
pub open spec fn eq_val(a: Decimal, b: Decimal) -> bool {
    a.value == b.value && a.negative == b.negative
}

/// Compare two [`Decimal`] values with comparison query operators; every
/// query demands equal scales and answers `DifferentScale` otherwise.
pub trait Compare<T>: Sized {
    /// The inputs `min` and `max` accept.
    spec fn extremum_req(self, rhs: T) -> bool;

    /// What `eq` returns.
    spec fn eq_ens(self, rhs: T, r: Result<bool, ErrorCode>) -> bool;

    /// What `almost_eq` returns.
    spec fn almost_eq_ens(self, rhs: T, precision: u128, r: Result<bool, ErrorCode>) -> bool;

    /// What `lt` returns.
    spec fn lt_ens(self, rhs: T, r: Result<bool, ErrorCode>) -> bool;

    /// What `gt` returns.
    spec fn gt_ens(self, rhs: T, r: Result<bool, ErrorCode>) -> bool;

    /// What `gte` returns.
    spec fn gte_ens(self, rhs: T, r: Result<bool, ErrorCode>) -> bool;

    /// What `lte` returns.
    spec fn lte_ens(self, rhs: T, r: Result<bool, ErrorCode>) -> bool;

    /// What `min` returns.
    spec fn min_ens(self, rhs: T, r: Self) -> bool;

    /// What `max` returns.
    spec fn max_ens(self, rhs: T, r: Self) -> bool;

    /// Show if two values equal each other.
    fn eq(self, rhs: T) -> (r: Result<bool, ErrorCode>)
        ensures
            self.eq_ens(rhs, r),
    ;

    /// Show if two values are almost equal to each other, given a
    /// precision.
    fn almost_eq(self, rhs: T, precision: u128) -> (r: Result<bool, ErrorCode>)
        ensures
            self.almost_eq_ens(rhs, precision, r),
    ;

    /// Show if one value is less than another.
    fn lt(self, rhs: T) -> (r: Result<bool, ErrorCode>)
        ensures
            self.lt_ens(rhs, r),
    ;

    /// Show if one value is greater than another.
    fn gt(self, rhs: T) -> (r: Result<bool, ErrorCode>)
        ensures
            self.gt_ens(rhs, r),
    ;

    /// Show if one value is greater than or equal to another.
    fn gte(self, rhs: T) -> (r: Result<bool, ErrorCode>)
        ensures
            self.gte_ens(rhs, r),
    ;

    /// Show if one value is less than or equal to another.
    fn lte(self, rhs: T) -> (r: Result<bool, ErrorCode>)
        ensures
            self.lte_ens(rhs, r),
    ;

    /// Show the minimum of two values.
    fn min(self, rhs: T) -> (r: Self)
        requires
            self.extremum_req(rhs),
        ensures
            self.min_ens(rhs, r),
    ;

    /// Show the maximum of two values.
    fn max(self, rhs: T) -> (r: Self)
        requires
            self.extremum_req(rhs),
        ensures
            self.max_ens(rhs, r),
    ;
}

impl Compare<Decimal> for Decimal {
    open spec fn extremum_req(self, rhs: Decimal) -> bool {
        self.scale == rhs.scale
    }

    open spec fn eq_ens(self, rhs: Decimal, r: Result<bool, ErrorCode>) -> bool {
        if self.scale != rhs.scale {
            r == Err::<bool, ErrorCode>(ErrorCode::DifferentScale)
        } else {
            r == Ok::<bool, ErrorCode>(eq_val(self, rhs))
        }
    }

    open spec fn almost_eq_ens(self, rhs: Decimal, precision: u128, r: Result<
        bool,
        ErrorCode,
    >) -> bool {
        r == Ok::<bool, ErrorCode>(
            (if self.value >= rhs.value {
                (self.value - rhs.value) as u128
            } else {
                0u128
            }) < precision,
        )
    }

    open spec fn lt_ens(self, rhs: Decimal, r: Result<bool, ErrorCode>) -> bool {
        if self.scale != rhs.scale {
            r == Err::<bool, ErrorCode>(ErrorCode::DifferentScale)
        } else {
            r == Ok::<bool, ErrorCode>(lt_val(self, rhs))
        }
    }

    open spec fn gt_ens(self, rhs: Decimal, r: Result<bool, ErrorCode>) -> bool {
        if self.scale != rhs.scale {
            r == Err::<bool, ErrorCode>(ErrorCode::DifferentScale)
        } else {
            r == Ok::<bool, ErrorCode>(lt_val(rhs, self))
        }
    }

    open spec fn gte_ens(self, rhs: Decimal, r: Result<bool, ErrorCode>) -> bool {
        if self.scale != rhs.scale {
            r == Err::<bool, ErrorCode>(ErrorCode::DifferentScale)
        } else {
            r == Ok::<bool, ErrorCode>(!lt_val(self, rhs))
        }
    }

    open spec fn lte_ens(self, rhs: Decimal, r: Result<bool, ErrorCode>) -> bool {
        if self.scale != rhs.scale {
            r == Err::<bool, ErrorCode>(ErrorCode::DifferentScale)
        } else {
            r == Ok::<bool, ErrorCode>(!lt_val(rhs, self))
        }
    }

    open spec fn min_ens(self, rhs: Decimal, r: Decimal) -> bool {
        r == if !lt_val(rhs, self) {
            self
        } else {
            rhs
        }
    }

    open spec fn max_ens(self, rhs: Decimal, r: Decimal) -> bool {
        r == if !lt_val(self, rhs) {
            self
        } else {
            rhs
        }
    }

    fn eq(self, rhs: Decimal) -> (r: Result<bool, ErrorCode>) {
        if self.scale != rhs.scale {
            Err(ErrorCode::DifferentScale)
        } else {
            Ok(self.value == rhs.value && self.negative == rhs.negative)
        }
    }

    fn almost_eq(self, rhs: Decimal, precision: u128) -> (r: Result<bool, ErrorCode>) {
        let difference: u128 = if self.value >= rhs.value {
            self.value - rhs.value
        } else {
            0
        };
        Ok(difference < precision)
    }

    fn lt(self, rhs: Decimal) -> (r: Result<bool, ErrorCode>) {
        if self.scale != rhs.scale {
            Err(ErrorCode::DifferentScale)
        } else if self.negative && rhs.negative {
            Ok(self.value > rhs.value)
        } else if self.negative && !rhs.negative {
            Ok(true)
        } else if !self.negative && rhs.negative {
            Ok(false)
        } else {
            Ok(self.value < rhs.value)
        }
    }

    fn gt(self, rhs: Decimal) -> (r: Result<bool, ErrorCode>) {
        if self.scale != rhs.scale {
            Err(ErrorCode::DifferentScale)
        } else if self.negative && rhs.negative {
            Ok(self.value < rhs.value)
        } else if self.negative && !rhs.negative {
            Ok(false)
        } else if !self.negative && rhs.negative {
            Ok(true)
        } else {
            Ok(self.value > rhs.value)
        }
    }

    fn gte(self, rhs: Decimal) -> (r: Result<bool, ErrorCode>) {
        if self.scale != rhs.scale {
            Err(ErrorCode::DifferentScale)
        } else if self.negative && rhs.negative {
            Ok(self.value <= rhs.value)
        } else if self.negative && !rhs.negative {
            Ok(false)
        } else if !self.negative && rhs.negative {
            Ok(true)
        } else {
            Ok(self.value >= rhs.value)
        }
    }

    fn lte(self, rhs: Decimal) -> (r: Result<bool, ErrorCode>) {
        if self.scale != rhs.scale {
            Err(ErrorCode::DifferentScale)
        } else if self.negative && rhs.negative {
            Ok(self.value >= rhs.value)
        } else if self.negative && !rhs.negative {
            Ok(true)
        } else if !self.negative && rhs.negative {
            Ok(false)
        } else {
            Ok(self.value <= rhs.value)
        }
    }

    fn min(self, rhs: Decimal) -> (r: Decimal) {
        let below = match self.lte(rhs) {
            Ok(b) => b,
            Err(_) => false,
        };
        if below {
            self
        } else {
            rhs
        }
    }

    fn max(self, rhs: Decimal) -> (r: Decimal) {
        let above = match self.gte(rhs) {
            Ok(b) => b,
            Err(_) => false,
        };
        if above {
            self
        } else {
            rhs
        }
    }
}

} // verus!
