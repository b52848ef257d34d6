//! The table-driven natural logarithm: the operand is decomposed as
//! `2^n * r` through a bit length derived from the decimal logarithm, and
//! `ln(r)` is approximated by matching successive decimal digits of `r`
//! against a fixed table of precomputed values `ln(1 + d * 10^-k)`.

use vstd::prelude::*;

use crate::decimal::base::{to_scale_val, Decimal, COMPUTE_SCALE};
use crate::decimal::ops::add::Add;
use crate::decimal::ops::sub::Sub;
use crate::decimal::ops::div::Div;
use crate::decimal::ops::log_10::{log10_result, Log10};
use crate::decimal::ops::log_2::lemma_log2_value_fits;
use crate::decimal::ops::mul::Mul;
use crate::math::{lemma_pow10_pos, pow10, pow10_u128, pow2_u128};
use vstd::arithmetic::power2::pow2;

verus! {

/// The fixed 9 by 12 table of `ln(1 + d * 10^-k)` at the compute scale,
/// for digit `d` from 1 to 9 (the row plus one) and place `k` from 1 to
/// 12 (the column plus one).
pub open spec fn log_table_spec(row: nat, col: nat) -> nat {
    if row == 0 {
        if col == 0 {
            95310179804
        } else if col == 1 {
            9950330853
        } else if col == 2 {
            999500333
        } else if col == 3 {
            99995000
        } else if col == 4 {
            9999950
        } else if col == 5 {
            999999
        } else if col == 6 {
            99999
        } else if col == 7 {
            9999
        } else if col == 8 {
            1000
        } else if col == 9 {
            100
        } else if col == 10 {
            10
        } else if col == 11 {
            1
        } else {
            0
        }
    } else if row == 1 {
        if col == 0 {
            182321556793
        } else if col == 1 {
            19802627296
        } else if col == 2 {
            1998002662
        } else if col == 3 {
            199980002
        } else if col == 4 {
            19999800
        } else if col == 5 {
            1999998
        } else if col == 6 {
            199999
        } else if col == 7 {
            19999
        } else if col == 8 {
            1999
        } else if col == 9 {
            200
        } else if col == 10 {
            20
        } else if col == 11 {
            1
        } else {
            0
        }
    } else if row == 2 {
        if col == 0 {
            262364264467
        } else if col == 1 {
            29558802241
        } else if col == 2 {
            2995508979
        } else if col == 3 {
            299955008
        } else if col == 4 {
            29999550
        } else if col == 5 {
            2999995
        } else if col == 6 {
            299999
        } else if col == 7 {
            29999
        } else if col == 8 {
            3000
        } else if col == 9 {
            300
        } else if col == 10 {
            30
        } else if col == 11 {
            3
        } else {
            0
        }
    } else if row == 3 {
        if col == 0 {
            336472236621
        } else if col == 1 {
            39220713153
        } else if col == 2 {
            3992021269
        } else if col == 3 {
            399920021
        } else if col == 4 {
            39999200
        } else if col == 5 {
            3999991
        } else if col == 6 {
            399999
        } else if col == 7 {
            39999
        } else if col == 8 {
            4000
        } else if col == 9 {
            400
        } else if col == 10 {
            40
        } else if col == 11 {
            3
        } else {
            0
        }
    } else if row == 4 {
        if col == 0 {
            405465108108
        } else if col == 1 {
            48790164169
        } else if col == 2 {
            4987541511
        } else if col == 3 {
            499875041
        } else if col == 4 {
            49998750
        } else if col == 5 {
            4999987
        } else if col == 6 {
            499999
        } else if col == 7 {
            49999
        } else if col == 8 {
            4999
        } else if col == 9 {
            500
        } else if col == 10 {
            50
        } else if col == 11 {
            5
        } else {
            0
        }
    } else if row == 5 {
        if col == 0 {
            470003629245
        } else if col == 1 {
            58268908123
        } else if col == 2 {
            5982071677
        } else if col == 3 {
            599820071
        } else if col == 4 {
            59998200
        } else if col == 5 {
            5999982
        } else if col == 6 {
            599999
        } else if col == 7 {
            59999
        } else if col == 8 {
            6000
        } else if col == 9 {
            600
        } else if col == 10 {
            60
        } else if col == 11 {
            6
        } else {
            0
        }
    } else if row == 6 {
        if col == 0 {
            530628251062
        } else if col == 1 {
            67658648473
        } else if col == 2 {
            6975613736
        } else if col == 3 {
            699755114
        } else if col == 4 {
            69997550
        } else if col == 5 {
            6999975
        } else if col == 6 {
            699999
        } else if col == 7 {
            69999
        } else if col == 8 {
            6999
        } else if col == 9 {
            700
        } else if col == 10 {
            70
        } else if col == 11 {
            6
        } else {
            0
        }
    } else if row == 7 {
        if col == 0 {
            587786664902
        } else if col == 1 {
            76961041136
        } else if col == 2 {
            7968169649
        } else if col == 3 {
            799680170
        } else if col == 4 {
            79996800
        } else if col == 5 {
            7999968
        } else if col == 6 {
            799999
        } else if col == 7 {
            79999
        } else if col == 8 {
            7999
        } else if col == 9 {
            800
        } else if col == 10 {
            80
        } else if col == 11 {
            8
        } else {
            0
        }
    } else if row == 8 {
        if col == 0 {
            641853886172
        } else if col == 1 {
            86177696241
        } else if col == 2 {
            8959741371
        } else if col == 3 {
            899595242
        } else if col == 4 {
            89995950
        } else if col == 5 {
            8999959
        } else if col == 6 {
            899999
        } else if col == 7 {
            89999
        } else if col == 8 {
            9000
        } else if col == 9 {
            900
        } else if col == 10 {
            90
        } else if col == 11 {
            8
        } else {
            0
        }
    } else {
        0
    }
}


impl Decimal {
    /// One entry of the logarithm table.
    pub fn log_table(&self, row: usize, col: usize) -> (r: u128)
        requires
            row < 9,
            col < 12,
        ensures
            r == log_table_spec(row as nat, col as nat),
    {
        if row == 0 {
            if col == 0 {
                95310179804
            } else if col == 1 {
                9950330853
            } else if col == 2 {
                999500333
            } else if col == 3 {
                99995000
            } else if col == 4 {
                9999950
            } else if col == 5 {
                999999
            } else if col == 6 {
                99999
            } else if col == 7 {
                9999
            } else if col == 8 {
                1000
            } else if col == 9 {
                100
            } else if col == 10 {
                10
            } else if col == 11 {
                1
            } else {
                0
            }
        } else if row == 1 {
            if col == 0 {
                182321556793
            } else if col == 1 {
                19802627296
            } else if col == 2 {
                1998002662
            } else if col == 3 {
                199980002
            } else if col == 4 {
                19999800
            } else if col == 5 {
                1999998
            } else if col == 6 {
                199999
            } else if col == 7 {
                19999
            } else if col == 8 {
                1999
            } else if col == 9 {
                200
            } else if col == 10 {
                20
            } else if col == 11 {
                1
            } else {
                0
            }
        } else if row == 2 {
            if col == 0 {
                262364264467
            } else if col == 1 {
                29558802241
            } else if col == 2 {
                2995508979
            } else if col == 3 {
                299955008
            } else if col == 4 {
                29999550
            } else if col == 5 {
                2999995
            } else if col == 6 {
                299999
            } else if col == 7 {
                29999
            } else if col == 8 {
                3000
            } else if col == 9 {
                300
            } else if col == 10 {
                30
            } else if col == 11 {
                3
            } else {
                0
            }
        } else if row == 3 {
            if col == 0 {
                336472236621
            } else if col == 1 {
                39220713153
            } else if col == 2 {
                3992021269
            } else if col == 3 {
                399920021
            } else if col == 4 {
                39999200
            } else if col == 5 {
                3999991
            } else if col == 6 {
                399999
            } else if col == 7 {
                39999
            } else if col == 8 {
                4000
            } else if col == 9 {
                400
            } else if col == 10 {
                40
            } else if col == 11 {
                3
            } else {
                0
            }
        } else if row == 4 {
            if col == 0 {
                405465108108
            } else if col == 1 {
                48790164169
            } else if col == 2 {
                4987541511
            } else if col == 3 {
                499875041
            } else if col == 4 {
                49998750
            } else if col == 5 {
                4999987
            } else if col == 6 {
                499999
            } else if col == 7 {
                49999
            } else if col == 8 {
                4999
            } else if col == 9 {
                500
            } else if col == 10 {
                50
            } else if col == 11 {
                5
            } else {
                0
            }
        } else if row == 5 {
            if col == 0 {
                470003629245
            } else if col == 1 {
                58268908123
            } else if col == 2 {
                5982071677
            } else if col == 3 {
                599820071
            } else if col == 4 {
                59998200
            } else if col == 5 {
                5999982
            } else if col == 6 {
                599999
            } else if col == 7 {
                59999
            } else if col == 8 {
                6000
            } else if col == 9 {
                600
            } else if col == 10 {
                60
            } else if col == 11 {
                6
            } else {
                0
            }
        } else if row == 6 {
            if col == 0 {
                530628251062
            } else if col == 1 {
                67658648473
            } else if col == 2 {
                6975613736
            } else if col == 3 {
                699755114
            } else if col == 4 {
                69997550
            } else if col == 5 {
                6999975
            } else if col == 6 {
                699999
            } else if col == 7 {
                69999
            } else if col == 8 {
                6999
            } else if col == 9 {
                700
            } else if col == 10 {
                70
            } else if col == 11 {
                6
            } else {
                0
            }
        } else if row == 7 {
            if col == 0 {
                587786664902
            } else if col == 1 {
                76961041136
            } else if col == 2 {
                7968169649
            } else if col == 3 {
                799680170
            } else if col == 4 {
                79996800
            } else if col == 5 {
                7999968
            } else if col == 6 {
                799999
            } else if col == 7 {
                79999
            } else if col == 8 {
                7999
            } else if col == 9 {
                800
            } else if col == 10 {
                80
            } else if col == 11 {
                8
            } else {
                0
            }
        } else if row == 8 {
            if col == 0 {
                641853886172
            } else if col == 1 {
                86177696241
            } else if col == 2 {
                8959741371
            } else if col == 3 {
                899595242
            } else if col == 4 {
                89995950
            } else if col == 5 {
                8999959
            } else if col == 6 {
                899999
            } else if col == 7 {
                89999
            } else if col == 8 {
                9000
            } else if col == 9 {
                900
            } else if col == 10 {
                90
            } else if col == 11 {
                8
            } else {
                0
            }
        } else {
            0
        }
    }
}


/// The digit ratio after one matching round: the running ratio divided by
/// the matched grid value.
pub open spec fn ltv_s(s: nat, t: nat) -> nat {
    (s * pow10(12)) / t
}

/// The ratio rounded down to the digit grid of the column's place.
pub open spec fn ltv_m(s2: nat, col: nat) -> nat {
    (s2 * pow10(col + 1)) / pow10(12)
}

pub open spec fn ltv_t(m: nat, col: nat) -> nat {
    (m * pow10(12)) / pow10(col + 1)
}

/// The digit row selector of one matching round.
pub open spec fn ltv_rowm(t2: nat, col: nat) -> nat {
    (t2 * pow10(col + 1)) / pow10(12)
}

/// The table contribution of one matching round; rows outside the table
/// contribute nothing.
pub open spec fn ltv_lx(t2: nat, col: nat) -> nat {
    let pl = pow10(col + 1);
    let rowm = ltv_rowm(t2, col);
    if rowm >= pl + 1 && rowm - pl - 1 < 9 && col < 12 {
        log_table_spec((rowm - pl - 1) as nat, col)
    } else {
        0
    }
}

/// One matching round stays in range: divisors are non-zero, products fit
/// the magnitude, and the row selector does not fall below its place.
pub open spec fn ltv_ok(s: nat, t: nat, col: nat) -> bool {
    let s2 = ltv_s(s, t);
    let m = ltv_m(s2, col);
    let t2 = ltv_t(m, col);
    &&& t != 0
    &&& s * pow10(12) <= u128::MAX
    &&& s2 * pow10(col + 1) <= u128::MAX
    &&& m * pow10(12) <= u128::MAX
    &&& t2 * pow10(col + 1) <= u128::MAX
    &&& ltv_rowm(t2, col) >= pow10(col + 1)
}

/// The summed table contributions of the ten matching rounds from the
/// given state.
pub open spec fn chain_sum(s: nat, t: nat, col: nat) -> nat
    decreases 10 - col,
{
    if col >= 10 {
        0
    } else {
        let s2 = ltv_s(s, t);
        let t2 = ltv_t(ltv_m(s2, col), col);
        ltv_lx(t2, col) + chain_sum(s2, t2, col + 1)
    }
}

/// Every one of the ten matching rounds stays in range.
pub open spec fn chain_ok(s: nat, t: nat, col: nat) -> bool
    decreases 10 - col,
{
    if col >= 10 {
        true
    } else {
        let s2 = ltv_s(s, t);
        let t2 = ltv_t(ltv_m(s2, col), col);
        ltv_ok(s, t, col) && chain_ok(s2, t2, col + 1)
    }
}

/// The bit length and its sign read off the decimal logarithms:
/// `int(log10(x) / log10(2))`, rounded up for operands below one.
pub open spec fn bit_length_result(d: Decimal) -> (nat, bool) {
    if d.value == 0 {
        (0, false)
    } else {
        let lx = log10_result(d);
        let neg = lx.negative && lx.value != 0;
        let q = (lx.value * pow10(12)) as nat / log10_two_scaled();
        if neg {
            (((q + pow10(12) - 1) as nat) / pow10(12), neg)
        } else {
            (q / pow10(12), neg)
        }
    }
}

/// The decimal logarithm of two at the compute scale, as the iterative
/// routine computes it.
pub open spec fn log10_two_scaled() -> nat {
    301029995664
}

/// `ln(2)` at the compute scale.
pub open spec fn ln_two_scaled() -> nat {
    693147180559
}

/// What the table-driven logarithm returns: nothing when the power-of-two
/// prescaling leaves the magnitude, else `n * ln(2)` adjusted by the
/// summed digit contributions of the remaining ratio.
pub open spec fn ln_tables_result(d: Decimal) -> Option<(nat, bool)> {
    let (bl, neg) = bit_length_result(d);
    if pow2(bl) * pow10(12) > u128::MAX {
        None
    } else {
        let maxv = if neg {
            (pow10(12) * pow10(12)) / (pow2(bl) * pow10(12))
        } else {
            pow2(bl) * pow10(12)
        };
        let lx_sum = chain_sum(d.value as nat, maxv, 0);
        let ln2bl = (ln_two_scaled() * (bl * pow10(12))) / pow10(12);
        let total = if neg {
            (ln2bl - lx_sum) as nat
        } else {
            ln2bl + lx_sum
        };
        Some((total, neg))
    }
}

impl Decimal {
    /// The bit length of the value: `int(log10(x) / log10(2))`, with the
    /// flag set for operands below one, whose length counts to the right.
    pub fn bit_length(&self) -> (r: Option<(u128, bool)>)
        requires
            self.scale == COMPUTE_SCALE,
        ensures
            r matches Some(v) && (v.0 as nat, v.1) == bit_length_result(*self),
    {
        if self.value == 0 {
            return Some((0, false));
        }
        proof {
            crate::decimal::base::lemma_to_scale_identity(*self);
            lemma_pow10_pos(12);
            assert(pow10(0) == 1);
        }
        let log10_x = match self.log10() {
            Ok(l) => l,
            Err(_) => {
                proof {
                    assert(false);
                }
                return None;
            },
        };
        let two = Decimal { value: 2000000000000, scale: COMPUTE_SCALE, negative: false };
        proof {
            crate::decimal::base::lemma_to_scale_identity(two);
            lemma_log10_of_two();
        }
        let log10_2 = match two.log10() {
            Ok(l) => l,
            Err(_) => {
                proof {
                    assert(false);
                }
                return None;
            },
        };
        let negative = log10_x.is_negative() != log10_2.is_negative();
        proof {
            lemma_log10_value_fits(*self);
        }
        let q = log10_x.div(log10_2);
        let value: u128 = if negative {
            q.to_scale_up(0).value
        } else {
            proof {
                assert(pow10(0) == 1);
                assert(q.value as nat * pow10(0) == q.value as nat * 1);
            }
            q.to_scale(0).value
        };
        Some((value, negative))
    }

    /// One matching round: divide the running ratio by the matched value,
    /// round it to the digit grid of the column, and look the matched
    /// digit up in the table.
    pub fn log_table_value(&self, s_value: Decimal, t_value: Decimal, col: usize) -> (r: (
        Decimal,
        Decimal,
        u128,
    ))
        requires
            s_value.scale == COMPUTE_SCALE,
            t_value.scale == COMPUTE_SCALE,
            !s_value.negative,
            !t_value.negative,
            col < 10,
            ltv_ok(s_value.value as nat, t_value.value as nat, col as nat),
        ensures
            r.0.scale == COMPUTE_SCALE && !r.0.negative,
            r.1.scale == COMPUTE_SCALE && !r.1.negative,
            r.0.value == ltv_s(s_value.value as nat, t_value.value as nat),
            r.1.value == ltv_t(
                ltv_m(ltv_s(s_value.value as nat, t_value.value as nat), col as nat),
                col as nat,
            ),
            r.2 == ltv_lx(r.1.value as nat, col as nat),
    {
        proof {
            lemma_pow10_pos(12);
            lemma_pow10_pos((col + 1) as nat);
        }
        let s2 = s_value.div(t_value);
        let place = pow10_u128(col as u8 + 1);
        let f = Decimal { value: place, scale: COMPUTE_SCALE, negative: false };
        let m = s2.mul(f);
        let t2 = m.div(f);
        let rowm_dec = t2.mul(f);
        let rowm = rowm_dec.value;
        let row0 = rowm - place;
        let lx: u128 = if row0 >= 1 && row0 - 1 < 9 {
            self.log_table((row0 - 1) as usize, col)
        } else {
            0
        };
        (s2, t2, lx)
    }

    /// The table-driven natural logarithm at the compute scale: decompose
    /// as `2^n * r`, sum the per-digit contributions for `ln(r)`, and add
    /// or subtract `n * ln(2)`.
    pub fn ln_tables(&self) -> (r: Option<(Decimal, bool)>)
        requires
            self.scale == COMPUTE_SCALE,
            self.value > 0,
            !self.negative,
            bit_length_result(*self).0 <= 127,
            pow2(bit_length_result(*self).0) * pow10(12) <= u128::MAX ==> ({
                let (bl, neg) = bit_length_result(*self);
                let maxv = if neg {
                    (pow10(12) * pow10(12)) / (pow2(bl) * pow10(12))
                } else {
                    pow2(bl) * pow10(12)
                };
                &&& chain_ok(self.value as nat, maxv, 0)
                &&& (neg ==> chain_sum(self.value as nat, maxv, 0) <= (ln_two_scaled() * (bl
                    * pow10(12))) / pow10(12))
            }),
        ensures
            r matches Some(v) ==> ln_tables_result(*self) matches Some(w) && v.0.value == w.0
                && v.0.scale == COMPUTE_SCALE && !v.0.negative && v.1 == w.1,
            r is None ==> ln_tables_result(*self) is None,
    {
        let ghost blr = bit_length_result(*self);
        // ln(2) = 0.693147180559945309417232121458176568075500134360255254120...
        let ln_2_decimal = Decimal { value: 693147180559, scale: COMPUTE_SCALE, negative: false };
        let (bit_length, negative) = match self.bit_length() {
            Some(b) => b,
            None => {
                proof {
                    assert(false);
                }
                return None;
            },
        };
        proof {
            vstd::arithmetic::power2::lemma_pow2_pos(bit_length as nat);
            lemma_pow10_pos(12);
            lemma_pow2_small(bit_length as nat);
        }
        let p2 = pow2_u128(bit_length as u32);
        if p2 > u128::MAX / 1000000000000u128 {
            proof {
                lemma_mul_div_cmp(p2 as nat);
            }
            return None;
        }
        proof {
            lemma_mul_div_cmp(p2 as nat);
            assert(pow10(12) == 1000000000000nat) by {
                reveal_with_fuel(pow10, 14);
            }
        }
        let max_raw = Decimal { value: p2 * 1000000000000u128, scale: COMPUTE_SCALE,
            negative: false };
        let max = if negative {
            // a negative length inverts the prescaler
            let one = Decimal { value: 1000000000000, scale: COMPUTE_SCALE, negative: false };
            proof {
                assert(1000000000000u128 * pow10(12) <= u128::MAX);
            }
            one.div(max_raw)
        } else {
            max_raw
        };
        let ghost maxv: nat = max.value as nat;

        // the ten matching rounds
        let mut s_cur = *self;
        let mut t_cur = max;
        let mut lx_sum: u128 = 0;
        let mut col: usize = 0;
        proof {
            lemma_chain_sum_bound(self.value as nat, maxv, 0);
        }
        while col < 10
            invariant
                s_cur.scale == COMPUTE_SCALE && !s_cur.negative,
                t_cur.scale == COMPUTE_SCALE && !t_cur.negative,
                col <= 10,
                chain_ok(s_cur.value as nat, t_cur.value as nat, col as nat),
                lx_sum + chain_sum(s_cur.value as nat, t_cur.value as nat, col as nat)
                    == chain_sum(self.value as nat, maxv, 0),
                lx_sum <= 6418538861720,
                chain_sum(self.value as nat, maxv, 0) <= 6418538861720,
                chain_sum(s_cur.value as nat, t_cur.value as nat, col as nat) <= (10 - col)
                    * 641853886172,
            decreases 10 - col,
        {
            let (s_next, t_next, lx) = self.log_table_value(s_cur, t_cur, col);
            proof {
                lemma_lx_bound(t_next.value as nat, col as nat);
                lemma_chain_sum_bound(s_next.value as nat, t_next.value as nat, (col
                    + 1) as nat);
            }
            lx_sum = lx_sum + lx;
            s_cur = s_next;
            t_cur = t_next;
            col = col + 1;
        }

        // n * ln(2), then the summed contributions
        proof {
            lemma_bld_fits(bit_length as nat);
        }
        let bit_length_decimal = Decimal { value: (bit_length as u128) * 1000000000000u128,
            scale: COMPUTE_SCALE, negative: false };
        let ln2bl = ln_2_decimal.mul(bit_length_decimal);
        let lx_sum_decimal = Decimal { value: lx_sum, scale: COMPUTE_SCALE, negative: false };

        let result = if negative {
            match ln2bl.sub(lx_sum_decimal) {
                Ok(v) => v,
                Err(_) => {
                    proof {
                        assert(false);
                    }
                    return None;
                },
            }
        } else {
            match ln2bl.add(lx_sum_decimal) {
                Ok(v) => v,
                Err(_) => {
                    proof {
                        assert(false);
                    }
                    return None;
                },
            }
        };
        Some((result, negative))
    }
}

/// The iterative decimal logarithm of two evaluates to the constant the
/// table-driven routine divides by.
proof fn lemma_log10_of_two()
    ensures
        log10_result((Decimal { value: 2000000000000, scale: COMPUTE_SCALE, negative: false }))
            == (Decimal { value: 301029995664, scale: COMPUTE_SCALE, negative: false }),
{
    let two = Decimal { value: 2000000000000, scale: COMPUTE_SCALE, negative: false };
    assert(pow10(12) == 1000000000000nat) by {
        reveal_with_fuel(pow10, 14);
    }
    assert(pow10(0) == 1);
    assert(to_scale_val(two, COMPUTE_SCALE) == 2000000000000nat * 1) by {
        assert(two.value as nat * pow10(0) == two.value as nat * 1);
    }
    crate::decimal::laws::lemma_log2_raw_of_two();
    let raw = crate::decimal::ops::log_2::log2_raw(2000000000000, 12);
    assert(raw == 1000000000000nat);
    assert(raw * pow10(0) == raw * 1);
    assert((1000000000000nat * 1000000000000nat) / crate::decimal::ops::log_10::log2_ten_scaled()
        == 301029995664nat) by {
        vstd::arithmetic::div_mod::lemma_fundamental_div_mod_converse(
            1000000000000000000000000,
            3321928094887,
            301029995664,
            46609430032,
        );
        assert(1000000000000nat * 1000000000000nat == 1000000000000000000000000nat)
            by (nonlinear_arith);
    }
}

/// The decimal logarithm's magnitude leaves room for the division by
/// `log10(2)` at the compute scale.
proof fn lemma_log10_value_fits(d: Decimal)
    requires
        d.value > 0,
        d.scale <= 18,
    ensures
        log10_result(d).value * pow10(12) <= u128::MAX,
{
    let lx = log10_result(d);
    let xv = to_scale_val(d, COMPUTE_SCALE);
    assert(pow10(12) == 1000000000000nat) by {
        reveal_with_fuel(pow10, 14);
    }
    let entry = crate::decimal::ops::log_10::power_of_ten_entry(xv);
    if xv == pow10(COMPUTE_SCALE as nat) && !d.negative {
        assert(lx.value == 0);
        assert(0nat * pow10(12) == 0) by (nonlinear_arith);
    } else if entry > 0 {
        lemma_pow10_pos((d.scale - COMPUTE_SCALE) as nat);
        lemma_pow10_pos((COMPUTE_SCALE - d.scale) as nat);
        assert(entry <= 12);
        let inner = Decimal {
            value: (entry * pow10(COMPUTE_SCALE as nat)) as u128,
            scale: COMPUTE_SCALE,
            negative: xv < pow10(COMPUTE_SCALE as nat),
        };
        assert(lx.value as nat <= 12000000000000000000nat) by {
            if d.scale >= COMPUTE_SCALE {
                crate::math::lemma_pow10_increases((d.scale - COMPUTE_SCALE) as nat, 6);
                assert(pow10(6) == 1000000nat) by {
                    reveal_with_fuel(pow10, 8);
                }
                assert(inner.value as nat * pow10((d.scale - COMPUTE_SCALE) as nat)
                    <= 12000000000000nat * 1000000nat) by (nonlinear_arith)
                    requires
                        inner.value <= 12000000000000nat,
                        pow10((d.scale - COMPUTE_SCALE) as nat) <= 1000000nat,
                ;
            } else {
                vstd::arithmetic::div_mod::lemma_div_nonincreasing(
                    inner.value as int,
                    pow10((COMPUTE_SCALE - d.scale) as nat) as int,
                );
            }
        }
        assert(lx.value as nat * pow10(12) <= 12000000000000000000nat * 1000000000000nat)
            by (nonlinear_arith)
            requires lx.value as nat <= 12000000000000000000nat, pow10(12) == 1000000000000nat;
    } else {
        lemma_log2_value_fits(d.value as nat, d.scale as nat);
        let raw = crate::decimal::ops::log_2::log2_raw(d.value as nat, d.scale as nat);
        let lv = if d.scale >= COMPUTE_SCALE {
            raw * pow10((d.scale - COMPUTE_SCALE) as nat)
        } else {
            raw / pow10((COMPUTE_SCALE - d.scale) as nat)
        };
        let q = (lv * pow10(COMPUTE_SCALE as nat)) as nat / crate::decimal::ops::log_10::log2_ten_scaled();
        assert(lx.value as nat <= lv) by {
            assert(pow10(COMPUTE_SCALE as nat) == 1000000000000nat);
            assert(crate::decimal::ops::log_10::log2_ten_scaled() == 3321928094887nat);
            assert(lv * pow10(COMPUTE_SCALE as nat) <= 3321928094887nat * lv)
                by (nonlinear_arith)
                requires pow10(COMPUTE_SCALE as nat) == 1000000000000nat;
            assert(3321928094887 * (lv as int) == 3321928094887nat * lv) by (nonlinear_arith);
            vstd::arithmetic::div_mod::lemma_multiply_divide_le(
                (lv * pow10(COMPUTE_SCALE as nat)) as int,
                3321928094887,
                lv as int,
            );
            assert(q <= lv);
            assert(lv <= lv * pow10(COMPUTE_SCALE as nat)) by (nonlinear_arith)
                requires pow10(COMPUTE_SCALE as nat) >= 1;
            assert(q <= u128::MAX);
            assert(lx.value == q);
        }
        assert(lx.value as nat * pow10(12) <= lv * pow10(12)) by (nonlinear_arith)
            requires lx.value as nat <= lv, pow10(12) >= 0;
    }
}

/// Comparing against the divided maximum decides the prescaler overflow.
proof fn lemma_mul_div_cmp(p: nat)
    ensures
        p <= (u128::MAX as nat) / 1000000000000 ==> p * 1000000000000 <= u128::MAX,
        p > (u128::MAX as nat) / 1000000000000 ==> p * 1000000000000 > u128::MAX,
        pow10(12) == 1000000000000nat,
{
    assert(pow10(12) == 1000000000000nat) by {
        reveal_with_fuel(pow10, 14);
    }
    let m = u128::MAX as nat;
    vstd::arithmetic::div_mod::lemma_fundamental_div_mod(m as int, 1000000000000);
    vstd::arithmetic::div_mod::lemma_mod_bound(m as int, 1000000000000);
    if p <= m / 1000000000000 {
        assert(p * 1000000000000 <= (m / 1000000000000) * 1000000000000) by (nonlinear_arith)
            requires p <= m / 1000000000000;
    } else {
        assert(p * 1000000000000 >= (m / 1000000000000 + 1) * 1000000000000)
            by (nonlinear_arith)
            requires p >= m / 1000000000000 + 1;
    }
}

/// A bit length within the width keeps the prescaler computable.
proof fn lemma_pow2_small(b: nat)
    requires
        b <= 127,
    ensures
        pow2(b) <= u128::MAX,
{
    vstd::arithmetic::power2::lemma2_to64();
    vstd::arithmetic::power2::lemma2_to64_rest();
    vstd::arithmetic::power2::lemma_pow2_adds(64, 63);
    if b < 127 {
        vstd::arithmetic::power2::lemma_pow2_strictly_increases(b, 127);
    }
}

/// One table entry is at most the largest value in the table.
proof fn lemma_lx_bound(t2: nat, col: nat)
    ensures
        ltv_lx(t2, col) <= 641853886172,
{
    let pl = pow10(col + 1);
    let rowm = ltv_rowm(t2, col);
    if rowm >= pl + 1 && rowm - pl - 1 < 9 && col < 12 {
        lemma_table_bound((rowm - pl - 1) as nat, col);
    }
}

/// Every table entry is at most the largest one.
proof fn lemma_table_bound(row: nat, col: nat)
    requires
        row < 9,
        col < 12,
    ensures
        log_table_spec(row, col) <= 641853886172,
{
}

/// The summed contributions of the remaining rounds stay below ten times
/// the largest table entry.
proof fn lemma_chain_sum_bound(s: nat, t: nat, col: nat)
    requires
        col <= 10,
    ensures
        chain_sum(s, t, col) <= (10 - col) * 641853886172,
    decreases 10 - col,
{
    if col >= 10 {
    } else {
        let s2 = ltv_s(s, t);
        let t2 = ltv_t(ltv_m(s2, col), col);
        lemma_lx_bound(t2, col);
        lemma_chain_sum_bound(s2, t2, col + 1);
    }
}

/// The prescaled bit length and its product with `ln(2)` stay in range.
proof fn lemma_bld_fits(b: nat)
    requires
        b <= 127,
    ensures
        b * 1000000000000 <= u128::MAX,
        693147180559 * (b * 1000000000000) <= u128::MAX,
        pow10(12) == 1000000000000nat,
{
    assert(pow10(12) == 1000000000000nat) by {
        reveal_with_fuel(pow10, 14);
    }
    assert(b * 1000000000000 <= 127 * 1000000000000) by (nonlinear_arith)
        requires b <= 127;
    assert(693147180559 * (b * 1000000000000) <= 693147180559 * (127
        * 1000000000000nat)) by (nonlinear_arith)
        requires b * 1000000000000 <= 127 * 1000000000000nat;
}

} // verus!
