//! Decimal logarithm by change of base, with a fast path for exact powers
//! of ten at the compute scale.

use vstd::prelude::*;

use crate::decimal::base::{to_scale_ok, to_scale_val, Decimal, COMPUTE_SCALE};
use crate::decimal::errors::ErrorCode;
use crate::decimal::ops::div::Div;
use crate::decimal::ops::log_2::{log2_negative, log2_raw, Log2};
use crate::math::{lemma_pow10_increases, lemma_pow10_pos, pow10, pow10_u128};

verus! {

/// The high-precision constant for `log2(10)` at the compute scale.
pub open spec fn log2_ten_scaled() -> nat {
    3321928094887
}

/// The table of exact powers of ten at the compute scale: for a magnitude
/// that is exactly `10^(12 +- k)` with `k` up to 12, the decimal exponent
/// `k`; zero anywhere else.
pub open spec fn power_of_ten_entry(v: nat) -> nat {
    if v == 1 {
        12
    } else if v == 10 {
        11
    } else if v == 100 {
        10
    } else if v == 1000 {
        9
    } else if v == 10000 {
        8
    } else if v == 100000 {
        7
    } else if v == 1000000 {
        6
    } else if v == 10000000 {
        5
    } else if v == 100000000 {
        4
    } else if v == 1000000000 {
        3
    } else if v == 10000000000 {
        2
    } else if v == 100000000000 {
        1
    } else if v == 1000000000000 {
        0
    } else if v == 10000000000000 {
        1
    } else if v == 100000000000000 {
        2
    } else if v == 1000000000000000 {
        3
    } else if v == 10000000000000000 {
        4
    } else if v == 100000000000000000 {
        5
    } else if v == 1000000000000000000 {
        6
    } else if v == 10000000000000000000 {
        7
    } else if v == 100000000000000000000 {
        8
    } else if v == 1000000000000000000000 {
        9
    } else if v == 10000000000000000000000 {
        10
    } else if v == 100000000000000000000000 {
        11
    } else if v == 1000000000000000000000000 {
        12
    } else {
        0
    }
}

/// The decimal logarithm's result: zero for one, the table answer for an
/// exact power of ten at the compute scale, and the change of base from
/// the binary logarithm anywhere else.
pub open spec fn log10_result(d: Decimal) -> Decimal {
    let xv = to_scale_val(d, COMPUTE_SCALE);
    let neg = xv < pow10(COMPUTE_SCALE as nat);
    let entry = power_of_ten_entry(xv);
    if xv == pow10(COMPUTE_SCALE as nat) && !d.negative {
        Decimal { value: 0, scale: d.scale, negative: false }
    } else if entry > 0 {
        let moved = to_scale_val(
            Decimal {
                value: (entry * pow10(COMPUTE_SCALE as nat)) as u128,
                scale: COMPUTE_SCALE,
                negative: neg,
            },
            d.scale,
        );
        Decimal { value: moved as u128, scale: d.scale, negative: neg && moved != 0 }
    } else {
        let raw = log2_raw(d.value as nat, d.scale as nat);
        let lv = if d.scale >= COMPUTE_SCALE {
            raw * pow10((d.scale - COMPUTE_SCALE) as nat)
        } else {
            raw / pow10((COMPUTE_SCALE - d.scale) as nat)
        };
        let lneg = log2_negative(d.value as nat, d.scale as nat) && raw != 0;
        let quotient = (lv * pow10(COMPUTE_SCALE as nat)) as nat / log2_ten_scaled();
        Decimal {
            value: quotient as u128,
            scale: d.scale,
            negative: lneg && quotient != 0,
        }
    }
}

pub trait Log10<T>: Sized {
    /// The inputs `log10` accepts: a strictly positive operand.
    spec fn log10_req(self) -> bool;

    /// What `log10` returns.
    spec fn log10_ens(self, r: Result<Self, ErrorCode>) -> bool;

    /// Calculate the decimal logarithm of the value.
    fn log10(self) -> (r: Result<Self, ErrorCode>)
        requires
            self.log10_req(),
        ensures
            self.log10_ens(r),
    ;
}

/// The decimal logarithm of a [`Decimal`]: one maps to zero; a magnitude
/// that is an exact power of ten at the compute scale is answered from
/// the table; everything else is `log2(x) / log2(10)`.
impl Log10<Decimal> for Decimal {
    open spec fn log10_req(self) -> bool {
        self.value > 0 && self.scale <= 18 && to_scale_ok(self, COMPUTE_SCALE)
    }

    open spec fn log10_ens(self, r: Result<Decimal, ErrorCode>) -> bool {
        r == Ok::<Decimal, ErrorCode>(log10_result(self))
    }

    fn log10(self) -> (r: Result<Decimal, ErrorCode>) {
        let scale = self.scale;
        let x = self.to_compute_scale();
        let x_scale: u128 = pow10_u128(COMPUTE_SCALE);
        let negative = x.value < x_scale;

        if x == Decimal::one() {
            proof {
                lemma_pow10_pos((COMPUTE_SCALE - scale) as nat);
                assert(pow10(0) == 1);
                vstd::arithmetic::div_mod::lemma_div_basics(
                    pow10((COMPUTE_SCALE - scale) as nat) as int,
                );
            }
            return Ok(Decimal::zero().to_scale(scale));
        }

        let power_of_ten: u128 = match x.value {
            1 => 12,
            10 => 11,
            100 => 10,
            1000 => 9,
            10000 => 8,
            100000 => 7,
            1000000 => 6,
            10000000 => 5,
            100000000 => 4,
            1000000000 => 3,
            10000000000 => 2,
            100000000000 => 1,
            1000000000000 => 0,
            10000000000000 => 1,
            100000000000000 => 2,
            1000000000000000 => 3,
            10000000000000000 => 4,
            100000000000000000 => 5,
            1000000000000000000 => 6,
            10000000000000000000 => 7,
            100000000000000000000 => 8,
            1000000000000000000000 => 9,
            10000000000000000000000 => 10,
            100000000000000000000000 => 11,
            1000000000000000000000000 => 12,
            _ => 0,
        };

        if power_of_ten > 0 {
            proof {
                lemma_pow10_12_value();
                assert(power_of_ten * x_scale <= 12000000000000u128) by (nonlinear_arith)
                    requires power_of_ten <= 12, x_scale == 1000000000000u128;
                assert(power_of_ten * x_scale >= 1) by (nonlinear_arith)
                    requires power_of_ten >= 1, x_scale >= 1;
                lemma_rescale_small((power_of_ten * x_scale) as nat, self.scale as nat);
                lemma_pow10_pos((COMPUTE_SCALE - scale) as nat);
                assert(pow10(0) == 1);
            }
            let value = power_of_ten * x_scale;
            Ok(Decimal::new(value, x.scale, negative).to_scale(scale))
        } else {
            // log2(10) = 3.32192809488736234787031942948939017586483139302458061205...
            let log2_10 = Decimal::new(3_321928094887u128, COMPUTE_SCALE, false);

            let log2_x = match self.log2() {
                Ok(l) => l,
                Err(_) => {
                    proof {
                        assert(false);
                    }
                    return Err(ErrorCode::ExceedsRange);
                },
            };
            proof {
                crate::decimal::ops::log_2::lemma_log2_value_fits(
                    self.value as nat,
                    self.scale as nat,
                );
                lemma_pow10_12_value();
            }
            // log2(x) / log2(10)
            let quotient = log2_x.div(log2_10);
            proof {
                assert(pow10(0) == 1);
                assert(quotient.value as nat * pow10(0) == quotient.value as nat * 1);
            }
            Ok(quotient.to_scale(self.scale))
        }
    }
}

/// `10^12` written out.
proof fn lemma_pow10_12_value()
    ensures
        pow10(12) == 1000000000000nat,
{
    reveal_with_fuel(pow10, 14);
}

/// A table answer of at most `12 * 10^12` survives every rescaling.
proof fn lemma_rescale_small(v: nat, s: nat)
    requires
        s <= 18,
        v <= 12000000000000,
    ensures
        s >= 12 ==> v * pow10((s - 12) as nat) <= u128::MAX,
        to_scale_ok(
            Decimal { value: v as u128, scale: COMPUTE_SCALE, negative: false },
            s as u8,
        ),
        to_scale_ok(
            Decimal { value: v as u128, scale: COMPUTE_SCALE, negative: true },
            s as u8,
        ),
{
    if s >= 12 {
        lemma_pow10_increases((s - 12) as nat, 6);
        assert(pow10(6) == 1000000nat) by {
            reveal_with_fuel(pow10, 8);
        }
        assert(v * pow10((s - 12) as nat) <= 12000000000000 * 1000000) by (nonlinear_arith)
            requires v <= 12000000000000, pow10((s - 12) as nat) <= 1000000nat;
    }
}

} // verus!
