//! Natural logarithm by change of base from the binary logarithm.

use vstd::prelude::*;

use crate::decimal::base::{to_scale_ok, to_scale_val, Decimal, COMPUTE_SCALE};
use crate::decimal::errors::ErrorCode;
use crate::decimal::ops::div::Div;
use crate::decimal::ops::log_2::{lemma_log2_value_fits, log2_negative, log2_raw, Log2};
use crate::math::{lemma_pow10_pos, pow10};

verus! {

/// The high-precision constant for `log2(e)` at the compute scale.
pub open spec fn log2_e_scaled() -> nat {
    1442695040888
}

pub trait Ln<T>: Sized {
    /// The inputs `ln` accepts: an operand that is still positive at the
    /// compute scale.
    spec fn ln_req(self) -> bool;

    /// What `ln` returns.
    spec fn ln_ens(self, r: Result<Self, ErrorCode>) -> bool;

    /// Calculate the natural logarithm of the value.
    fn ln(self) -> (r: Result<Self, ErrorCode>)
        requires
            self.ln_req(),
        ensures
            self.ln_ens(r),
    ;
}

/// The natural logarithm of a [`Decimal`]: `ln(x) = log2(x) / log2(e)`,
/// with `log2` taken at the compute scale.
impl Ln<Decimal> for Decimal {
    open spec fn ln_req(self) -> bool {
        to_scale_ok(self, COMPUTE_SCALE) && to_scale_val(self, COMPUTE_SCALE) > 0
            && self.scale <= 36
    }

    open spec fn ln_ens(self, r: Result<Self, ErrorCode>) -> bool {
        let xv = to_scale_val(self, COMPUTE_SCALE);
        let raw = log2_raw(xv, COMPUTE_SCALE as nat);
        let lneg = log2_negative(xv, COMPUTE_SCALE as nat) && raw != 0;
        let quotient = (raw * pow10(COMPUTE_SCALE as nat)) as nat / log2_e_scaled();
        match r {
            Ok(v) => {
                &&& v.scale == self.scale
                &&& v.value == to_scale_val(
                    Decimal { value: quotient as u128, scale: COMPUTE_SCALE, negative: lneg },
                    self.scale,
                )
                &&& v.negative == (lneg && v.value != 0)
            },
            Err(_) => false,
        }
    }

    fn ln(self) -> (r: Result<Decimal, ErrorCode>) {
        let x = self.to_compute_scale();
        let log2_x = match x.log2() {
            Ok(l) => l,
            Err(_) => {
                proof {
                    assert(false);
                }
                return Err(ErrorCode::ExceedsRange);
            },
        };
        proof {
            let xv = to_scale_val(self, COMPUTE_SCALE);
            let raw = crate::decimal::ops::log_2::log2_raw(xv, COMPUTE_SCALE as nat);
            assert(pow10(0) == 1);
            assert(raw * pow10(0) == raw * 1);
            lemma_log2_value_fits(xv, COMPUTE_SCALE as nat);
            crate::decimal::ops::log_2::lemma_raw_bound(xv, COMPUTE_SCALE as nat);
            lemma_ln_quotient_fits(raw, self.scale as nat);
        }

        // 1.44269504088896340735992468100189213742664595415298593413544...
        let log2_e = Decimal::new(1_442695040888u128, COMPUTE_SCALE, false);

        // ln(x) = log2(x) / log2(e)
        Ok(log2_x.div(log2_e).to_scale(self.scale))
    }
}

/// The change-of-base quotient is no larger than the raw logarithm and
/// survives the move back to the caller's scale.
proof fn lemma_ln_quotient_fits(raw: nat, s: nat)
    requires
        raw <= 129 * pow10(12),
        s <= 36,
    ensures
        (raw * pow10(12)) / log2_e_scaled() <= 129 * pow10(12),
        s >= 12 ==> ((raw * pow10(12)) / log2_e_scaled()) * pow10((s - 12) as nat)
            <= u128::MAX,
{
    assert(pow10(12) == 1000000000000nat) by {
        reveal_with_fuel(pow10, 14);
    }
    lemma_pow10_pos(12);
    let q = (raw * pow10(12)) / log2_e_scaled();
    assert((raw * pow10(12)) / pow10(12) == raw) by {
        vstd::arithmetic::div_mod::lemma_div_multiples_vanish(raw as int, pow10(12) as int);
        assert(pow10(12) * raw == raw * pow10(12)) by (nonlinear_arith);
    }
    assert(q <= raw) by {
        vstd::arithmetic::div_mod::lemma_div_is_ordered_by_denominator(
            (raw * pow10(12)) as int,
            pow10(12) as int,
            log2_e_scaled() as int,
        );
    }
    if s >= 12 {
        crate::math::lemma_pow10_increases((s - 12) as nat, 24);
        assert(pow10(24) == 1000000000000000000000000nat) by {
            reveal_with_fuel(pow10, 26);
        }
        assert(q * pow10((s - 12) as nat) <= (129 * 1000000000000nat)
            * 1000000000000000000000000nat) by (nonlinear_arith)
            requires
                q <= 129 * 1000000000000nat,
                pow10((s - 12) as nat) <= 1000000000000000000000000nat,
        ;
    }
}

} // verus!
