//! The general laws of the decimal operations, proved from their
//! contracts.

use vstd::prelude::*;

use crate::decimal::base::{sval, to_scale_val, Decimal, COMPUTE_SCALE};
use crate::decimal::display::{digit_char, digits_of, display_spec, zero_chars};
use crate::decimal::errors::ErrorCode;
use crate::decimal::parse::{
    all_digits,
    assemble,
    digit_val,
    digits_val,
    find_dot_from,
    find_exp_from,
    is_digit,
    is_exp_char,
    lemma_digits_val_concat,
    lemma_find_dot,
    lemma_find_exp,
    parse_spec,
};
use crate::decimal::ops::add::Add;
use crate::decimal::ops::div::Div;
use crate::decimal::ops::div_up::DivUp;
use crate::decimal::ops::log_2::{log2_raw, Log2};
use crate::decimal::ops::mul::Mul;
use crate::decimal::ops::pow::{at_compute, at_scale, pow_val, Pow};
use crate::decimal::ops::sqrt::Sqrt;
use crate::math::{
    lemma_log2_floor_pow2,
    lemma_pow10_pos,
    log2_floor,
    pow10,
};
use vstd::arithmetic::power2::pow2;

verus! {

/// Addition is commutative: on equal scales, `a.add(b)` and `b.add(a)`
/// answer the same value, and the scale mismatch error is symmetric too.
pub proof fn law_add_commutative(a: Decimal, b: Decimal)
    requires
        a.add_req(b),
        b.add_req(a),
    ensures
        forall|r1: Result<Decimal, ErrorCode>, r2: Result<Decimal, ErrorCode>|
            a.add_ens(b, r1) && b.add_ens(a, r2) ==> r1 == r2,
{
    assert forall|r1: Result<Decimal, ErrorCode>, r2: Result<Decimal, ErrorCode>|
        a.add_ens(b, r1) && b.add_ens(a, r2) implies r1 == r2 by {
        if a.scale == b.scale {
            let s = sval(a) + sval(b);
            match (r1, r2) {
                (Ok(v1), Ok(v2)) => {
                    assert(v1.value == v2.value);
                    assert(v1.negative == v2.negative);
                    assert(v1.scale == v2.scale);
                },
                _ => {
                },
            }
        }
    }
}

/// The sign of a non-zero product is the exclusive or of the operand
/// signs; a product that truncates to zero is non-negative.
pub proof fn law_mul_sign(a: Decimal, b: Decimal, r: Decimal)
    requires
        a.mul_req(b),
        a.mul_ens(b, r),
    ensures
        r.value != 0 ==> r.negative == (a.negative != b.negative),
        r.value == 0 ==> !r.negative,
{
}

/// Ceiling division never answers below floor division, and the two
/// differ by at most one unit in the result scale.
pub proof fn law_div_up_dominates(a: Decimal, b: Decimal, floor: Decimal, ceiling: Decimal)
    requires
        a.div_req(b),
        a.div_up_req(b),
        a.div_ens(b, floor),
        a.div_up_ens(b, ceiling),
    ensures
        ceiling.value >= floor.value,
        ceiling.value - floor.value <= 1,
        ceiling.scale == floor.scale,
        floor.value != 0 ==> ceiling.negative == floor.negative,
{
    let n = (a.value * pow10(b.scale as nat)) as nat;
    let d = b.value as nat;
    vstd::arithmetic::div_mod::lemma_fundamental_div_mod(n as int, d as int);
    vstd::arithmetic::div_mod::lemma_mod_bound(n as int, d as int);
    vstd::arithmetic::div_mod::lemma_fundamental_div_mod((n + d - 1) as int, d as int);
    vstd::arithmetic::div_mod::lemma_mod_bound((n + d - 1) as int, d as int);
    let q = n / d;
    let qq = ((n + d - 1) as nat) / d;
    assert(qq >= q) by {
        vstd::arithmetic::div_mod::lemma_div_is_ordered(n as int, (n + d - 1) as int, d as int);
    }
    assert(qq <= q + 1) by {
        assert(n + d - 1 < (q + 2) * d) by (nonlinear_arith)
            requires n == d * q + (n % d), n % d < d, d >= 1;
        vstd::arithmetic::div_mod::lemma_multiply_divide_lt((n + d - 1) as int, d as int, (q
            + 2) as int);
        assert(d * (q + 2) == (q + 2) * d) by (nonlinear_arith);
    }
}

/// A power with exponent zero is one, with exponent one the base itself,
/// and with exponent two the base times itself.
pub proof fn law_pow_zero_one_two(x: Decimal, p0: Decimal, p1: Decimal, p2: Decimal, m: Decimal)
    requires
        x.pow_req(0u128),
        x.pow_req(1u128),
        x.pow_req(2u128),
        x.mul_req(x),
        x.pow_ens(0u128, p0),
        x.pow_ens(1u128, p1),
        x.pow_ens(2u128, p2),
        x.mul_ens(x, m),
        x.scale <= 38,
    ensures
        p0.value == pow10(x.scale as nat) && !p0.negative && p0.scale == x.scale,
        p1 == x || (x.value == 0 && p1.value == 0 && !p1.negative && p1.scale == x.scale),
        p2.value == m.value && p2.negative == m.negative && p2.scale == m.scale,
{
    let p = pow10(x.scale as nat);
    let v = x.value as nat;
    lemma_pow10_pos(x.scale as nat);
    // exponent zero: the accumulator is untouched
    assert(pow_val(p, false, v, x.negative, 0, p) == (p, false));
    // exponent one: one multiplication by the base, exactly cancelled
    assert((p * v) / p == v) by {
        vstd::arithmetic::div_mod::lemma_div_multiples_vanish(v as int, p as int);
    }
    assert(pow_val(p, false, v, x.negative, 1, p) == ((p * v) / p, x.negative && v != 0)) by {
        assert(1nat % 2 == 1 && 1nat / 2 == 0);
    }
    assert(p1.value == x.value && p1.negative == (x.negative && x.value != 0) && p1.scale
        == x.scale);
    if x.negative {
        assert(x.value != 0 ==> p1 == x);
    }
    // exponent two: one squaring, then one exactly cancelled multiplication
    assert(pow_val(p, false, v, x.negative, 2, p) == pow_val(p, false, (v * v) / p, false, 1, p))
        by {
        assert(2nat % 2 == 0 && 2nat / 2 == 1);
    }
    let sq = (v * v) / p;
    assert(pow_val(p, false, sq, false, 1, p) == ((p * sq) / p, false)) by {
        assert(1nat % 2 == 1 && 1nat / 2 == 0);
    }
    assert((p * sq) / p == sq) by {
        vstd::arithmetic::div_mod::lemma_div_multiples_vanish(sq as int, p as int);
    }
    assert(m.value == sq && m.negative == (x.negative != x.negative));
}

/// A decimal exponent of exactly one answers the base itself: the round
/// trip through the compute scale is exact for scales up to it.
pub proof fn law_pow_identity_exponent(x: Decimal, e: Decimal, r: Decimal)
    requires
        x.pow_req(e),
        x.pow_ens(e, r),
        !e.negative,
        e.value != 0,
        to_scale_val(e, COMPUTE_SCALE) == pow10(COMPUTE_SCALE as nat),
        x.scale <= COMPUTE_SCALE,
        x.negative ==> x.value != 0,
    ensures
        r == x,
{
    let s = x.scale;
    let xb = at_compute(x);
    assert(pow10(COMPUTE_SCALE as nat) == 1000000000000nat) by {
        reveal_with_fuel(pow10, 14);
    }
    let d = pow10((COMPUTE_SCALE - s) as nat);
    lemma_pow10_pos((COMPUTE_SCALE - s) as nat);
    let xv = to_scale_val(x, COMPUTE_SCALE);
    assert(xv == x.value * d);
    assert(xv == 0 <==> x.value == 0) by (nonlinear_arith)
        requires xv == x.value * d, d >= 1;
    assert(r == at_scale(xb, s));
    // moving back down divides the exact multiple away
    assert(to_scale_val(xb, s) == xv / d) by {
        if s == COMPUTE_SCALE {
            assert(pow10(0) == 1);
            assert(xv as u128 as nat * pow10(0) == xv * 1);
            vstd::arithmetic::div_mod::lemma_div_basics(xv as int);
        }
    }
    assert((x.value * d) as nat / d == x.value) by {
        vstd::arithmetic::div_mod::lemma_div_multiples_vanish(x.value as int, d as int);
        assert(d * x.value == x.value * d) by (nonlinear_arith);
    }
    assert(r.value == x.value);
    assert(r.scale == x.scale);
    assert(r.negative == x.negative);
}

/// For operands up to a quarter, the square of the square root lands
/// within one unit of the operand at the operating scale.  (Larger
/// operands can drift by more: the flooring of the root costs up to two
/// of its own units when squared back.)
pub proof fn law_sqrt_squared_within_unit(a: Decimal, r: Decimal, back: Decimal)
    requires
        a.sqrt_req(),
        a.sqrt_ens(Ok(r)),
        r.mul_req(r),
        r.mul_ens(r, back),
        a.scale >= 1,
        4 * a.value <= pow10(a.scale as nat),
    ensures
        back.scale == a.scale,
        back.value <= a.value,
        a.value - back.value <= 1,
{
    let d = pow10(a.scale as nat);
    let av = a.value as nat;
    let n = av * d;
    let rv = r.value as nat;
    lemma_pow10_pos(a.scale as nat);
    assert(d >= 10) by {
        crate::math::lemma_pow10_increases(1, a.scale as nat);
        assert(pow10(1) == 10) by {
            reveal_with_fuel(pow10, 3);
        }
    }
    assert(back.value == (rv * rv) / d);
    // upper bound: the squared root never exceeds the operand
    assert(rv * rv <= n + 1);
    assert((rv * rv) / d <= av) by {
        assert(rv * rv < d * (av + 1)) by (nonlinear_arith)
            requires rv * rv <= av * d + 1, d >= 2;
        vstd::arithmetic::div_mod::lemma_multiply_divide_lt(
            (rv * rv) as int,
            d as int,
            (av + 1) as int,
        );
    }
    // the root of a quarter stays within half the denominator
    assert(2 * rv <= d) by {
        if 2 * rv > d {
            assert(d == 2 * (d / 2)) by {
                lemma_pow10_even(a.scale as nat);
            }
            assert(rv >= d / 2 + 1);
            assert(4 * (rv * rv) >= d * d + 4 * d + 4) by (nonlinear_arith)
                requires rv >= d / 2 + 1, d == 2 * (d / 2);
            assert(4 * (rv * rv) <= 4 * (av * d) + 4) by (nonlinear_arith)
                requires rv * rv <= av * d + 1;
            assert(4 * (av * d) <= d * d) by (nonlinear_arith)
                requires 4 * av <= d, d >= 0;
            assert(false);
        }
    }
    // lower bound: at most one unit is lost
    if av >= 1 {
        assert(n < (rv + 1) * (rv + 1));
        assert(rv * rv >= (av - 1) * d) by (nonlinear_arith)
            requires
                av * d < (rv + 1) * (rv + 1),
                2 * rv <= d,
                av >= 1,
                d >= 2,
        ;
        assert((rv * rv) / d >= av - 1) by {
            vstd::arithmetic::div_mod::lemma_div_multiples_vanish(
                (av - 1) as int,
                d as int,
            );
            vstd::arithmetic::div_mod::lemma_div_is_ordered(
                ((av - 1) * d) as int,
                (rv * rv) as int,
                d as int,
            );
            assert(d * (av - 1) == (av - 1) * d) by (nonlinear_arith);
        }
    }
}

/// Powers of ten beyond one are even.
proof fn lemma_pow10_even(s: nat)
    requires
        s >= 1,
    ensures
        pow10(s) == 2 * (pow10(s) / 2),
    decreases s,
{
    assert(pow10(s) == 10 * pow10((s - 1) as nat));
    vstd::arithmetic::div_mod::lemma_fundamental_div_mod_converse(
        pow10(s) as int,
        2,
        (5 * pow10((s - 1) as nat)) as int,
        0,
    );
}

/// On an exact power of two at the operand's scale, the binary logarithm
/// is exact: no iteration error.
pub proof fn law_log2_exact_power(x: Decimal, r: Result<Decimal, ErrorCode>, k: nat)
    requires
        x.scale == COMPUTE_SCALE,
        x.value == pow2(k) * pow10(COMPUTE_SCALE as nat),
        x.log2_req(),
        x.log2_ens(r),
    ensures
        r is Ok,
        r matches Ok(v) ==> v.value == k * pow10(COMPUTE_SCALE as nat) && v.negative == false,
{
    let sc = pow10(COMPUTE_SCALE as nat);
    lemma_pow10_pos(COMPUTE_SCALE as nat);
    vstd::arithmetic::power2::lemma_pow2_pos(k);
    let v = x.value as nat;
    // the operand is at least one, so the sign flag stays clear
    assert(v >= sc) by (nonlinear_arith)
        requires v == pow2(k) * sc, pow2(k) >= 1, sc >= 1;
    // the integer part of the quotient is exactly the power
    assert(v / sc == pow2(k)) by {
        vstd::arithmetic::div_mod::lemma_div_multiples_vanish(pow2(k) as int, sc as int);
        assert(sc * pow2(k) == pow2(k) * sc) by (nonlinear_arith);
    }
    lemma_log2_floor_pow2(k);
    // dropping the integer bits leaves exactly one, so the fractional
    // loop is skipped
    assert(v / pow2(k) == sc) by {
        vstd::arithmetic::div_mod::lemma_div_multiples_vanish(sc as int, pow2(k) as int);
    }
    assert(log2_raw(v, COMPUTE_SCALE as nat) == log2_floor(v / sc) * sc);
    assert(pow10(0) == 1);
    assert(log2_raw(v, COMPUTE_SCALE as nat) * pow10(0) == log2_raw(
        v,
        COMPUTE_SCALE as nat,
    ) * 1);
}

/// Every character of a rendered magnitude is a decimal digit.
proof fn lemma_digits_of_digits(n: nat)
    ensures
        all_digits(digits_of(n)),
        digits_of(n).len() >= 1,
    decreases n,
{
    if n < 10 {
        assert(is_digit(digit_char(n)));
        assert(digits_of(n) =~= seq![digit_char(n)]);
    } else {
        lemma_digits_of_digits(n / 10);
        assert(is_digit(digit_char(n % 10)));
        assert forall|i: int| 0 <= i < digits_of(n).len() implies is_digit(
            #[trigger] digits_of(n)[i],
        ) by {
            if i < digits_of(n).len() - 1 {
                assert(digits_of(n)[i] == digits_of(n / 10)[i]);
            }
        }
    }
}

/// Reading the rendered digits back recovers the magnitude.
proof fn lemma_digits_roundtrip(n: nat)
    ensures
        digits_val(digits_of(n)) == n,
    decreases n,
{
    if n < 10 {
        assert(digits_of(n) =~= seq![digit_char(n)]);
        assert(digits_of(n).drop_last() =~= Seq::<char>::empty());
        assert(digits_val(Seq::<char>::empty()) == 0);
        assert(digit_val(digit_char(n)) == n);
        assert(digits_val(digits_of(n)) == digits_val(digits_of(n).drop_last()) * 10 + digit_val(
            digits_of(n).last(),
        ));
    } else {
        lemma_digits_roundtrip(n / 10);
        assert(digits_of(n).drop_last() =~= digits_of(n / 10));
        assert(digits_of(n).last() == digit_char(n % 10));
        assert(digit_val(digit_char(n % 10)) == n % 10);
        vstd::arithmetic::div_mod::lemma_fundamental_div_mod(n as int, 10);
    }
}

/// Zeros in front of a digit string do not change its value.
proof fn lemma_leading_zeros(k: nat, x: Seq<char>)
    ensures
        digits_val(zero_chars(k) + x) == digits_val(x),
        all_digits(zero_chars(k)),
    decreases k,
{
    assert forall|i: int| 0 <= i < zero_chars(k).len() implies is_digit(
        #[trigger] zero_chars(k)[i],
    ) by {
        assert(zero_chars(k)[i] == '0');
    }
    lemma_digits_val_concat(zero_chars(k), x);
    lemma_zero_chars_zero(k);
    assert(0 * crate::math::pow10(x.len()) == 0) by (nonlinear_arith);
}

/// A run of zeros reads back as zero.
proof fn lemma_zero_chars_zero(k: nat)
    ensures
        digits_val(zero_chars(k)) == 0,
    decreases k,
{
    if k == 0 {
        assert(zero_chars(0) =~= Seq::<char>::empty());
    } else {
        lemma_zero_chars_zero((k - 1) as nat);
        assert(zero_chars(k).drop_last() =~= zero_chars((k - 1) as nat));
        assert(zero_chars(k).last() == '0');
        assert(digit_val('0') == 0);
    }
}

/// Digit characters are never a sign, a point, or an exponent marker.
proof fn lemma_digit_not_special(c: char)
    requires
        is_digit(c),
    ensures
        c != '-',
        c != '.',
        !is_exp_char(c),
{
    assert('-' as u32 == 45);
    assert('.' as u32 == 46);
    assert('e' as u32 == 101);
    assert('E' as u32 == 69);
}

/// Rendering a well-formed decimal and parsing it back recovers the same
/// value, scale and sign.
#[verifier::rlimit(100)]
pub proof fn law_display_reparse(d: Decimal)
    requires
        d.negative ==> d.value != 0,
    ensures
        parse_spec(display_spec(d)) == Ok::<Decimal, ErrorCode>(d),
{
    let t = display_spec(d);
    let digits = digits_of(d.value as nat);
    let n = digits.len();
    let scale = d.scale as nat;
    let start: int = if d.negative {
        1
    } else {
        0
    };
    lemma_digits_of_digits(d.value as nat);
    lemma_digits_roundtrip(d.value as nat);

    if scale == 0 {
        assert(t =~= (if d.negative {
            seq!['-']
        } else {
            Seq::<char>::empty()
        }) + digits);
        assert forall|j: int| 0 <= j < t.len() implies !is_exp_char(#[trigger] t[j]) by {
            if j >= start {
                lemma_digit_not_special(digits[j - start]);
            } else {
                assert(t[j] == '-');
            }
        }
        lemma_find_exp(t, 0, t.len() as int);
        let el = t.len() as int;
        assert((t[0] == '-') == d.negative) by {
            if !d.negative {
                lemma_digit_not_special(digits[0]);
            }
        }
        assert forall|j: int| start <= j < el implies t[j] != '.' by {
            lemma_digit_not_special(digits[j - start]);
        }
        lemma_find_dot(t, start, el, el);
        assert(t.subrange(start, el) =~= digits);
        assert(parse_spec(t) == assemble(d.negative, d.value as nat, 0, false, 0));
    } else if scale >= n {
        let zk = (scale - n) as nat;
        let head: Seq<char> = if d.negative {
            seq!['-']
        } else {
            Seq::<char>::empty()
        };
        assert(t =~= head + seq!['0', '.'] + zero_chars(zk) + digits);
        lemma_leading_zeros(zk, digits);
        assert forall|j: int| 0 <= j < t.len() implies !is_exp_char(#[trigger] t[j]) by {
            if j < start {
                assert(t[j] == '-');
            } else if j == start {
                assert(t[j] == '0');
            } else if j == start + 1 {
                assert(t[j] == '.');
            } else if j < start + 2 + zk {
                assert(t[j] == zero_chars(zk)[j - start - 2]);
                assert(t[j] == '0');
            } else {
                lemma_digit_not_special(digits[j - start - 2 - zk]);
            }
        }
        lemma_find_exp(t, 0, t.len() as int);
        let el = t.len() as int;
        assert((t[0] == '-') == d.negative);
        let dot = start + 1;
        assert(t[start] == '0');
        assert(t[dot] == '.');
        lemma_find_dot(t, start, dot, el);
        let lead = t.subrange(start, dot);
        let trail = t.subrange(dot + 1, el);
        assert(lead =~= seq!['0']);
        assert(trail =~= zero_chars(zk) + digits);
        assert(all_digits(lead)) by {
            assert(is_digit('0'));
        }
        assert(all_digits(trail)) by {
            assert forall|j: int| 0 <= j < trail.len() implies is_digit(#[trigger] trail[j]) by {
                if j < zk {
                    assert(trail[j] == '0');
                } else {
                    assert(trail[j] == digits[j - zk]);
                }
            }
        }
        let joined = lead + trail;
        assert(joined =~= zero_chars(zk + 1) + digits) by {
            assert forall|j: int| 0 <= j < joined.len() implies joined[j] == (zero_chars(zk + 1)
                + digits)[j] by {
                if j == 0 {
                    assert(joined[j] == '0');
                    assert((zero_chars(zk + 1) + digits)[j] == '0');
                } else if j < zk + 1 {
                    assert(joined[j] == trail[j - 1]);
                    assert(trail[j - 1] == '0');
                    assert((zero_chars(zk + 1) + digits)[j] == '0');
                } else {
                    assert(joined[j] == trail[j - 1]);
                    assert(trail[j - 1] == digits[j - 1 - zk]);
                    assert((zero_chars(zk + 1) + digits)[j] == digits[j - 1 - zk]);
                }
            }
        }
        lemma_leading_zeros((zk + 1) as nat, digits);
        assert(digits_val(joined) == d.value as nat);
        assert(trail.len() == scale);
        assert(parse_spec(t) == assemble(d.negative, d.value as nat, scale, false, 0));
    } else {
        let cut = (n - scale) as int;
        let head: Seq<char> = if d.negative {
            seq!['-']
        } else {
            Seq::<char>::empty()
        };
        assert(t =~= head + digits.subrange(0, cut) + seq!['.'] + digits.subrange(
            cut,
            n as int,
        ));
        assert forall|j: int| 0 <= j < t.len() implies !is_exp_char(#[trigger] t[j]) by {
            if j < start {
                assert(t[j] == '-');
            } else if j < start + cut {
                assert(t[j] == digits[j - start]);
                lemma_digit_not_special(digits[j - start]);
            } else if j == start + cut {
                assert(t[j] == '.');
            } else {
                assert(t[j] == digits[j - start - 1]);
                lemma_digit_not_special(digits[j - start - 1]);
            }
        }
        lemma_find_exp(t, 0, t.len() as int);
        let el = t.len() as int;
        assert((t[0] == '-') == d.negative) by {
            if !d.negative {
                lemma_digit_not_special(digits[0]);
            }
        }
        let dot = start + cut;
        assert forall|j: int| start <= j < dot implies t[j] != '.' by {
            assert(t[j] == digits[j - start]);
            lemma_digit_not_special(digits[j - start]);
        }
        assert(t[dot] == '.');
        lemma_find_dot(t, start, dot, el);
        let lead = t.subrange(start, dot);
        let trail = t.subrange(dot + 1, el);
        assert(lead =~= digits.subrange(0, cut));
        assert(trail =~= digits.subrange(cut, n as int));
        assert(all_digits(lead)) by {
            assert forall|j: int| 0 <= j < lead.len() implies is_digit(#[trigger] lead[j]) by {
                assert(lead[j] == digits[j]);
            }
        }
        assert(all_digits(trail)) by {
            assert forall|j: int| 0 <= j < trail.len() implies is_digit(#[trigger] trail[j]) by {
                assert(trail[j] == digits[cut + j]);
            }
        }
        assert(lead + trail =~= digits);
        assert(digits_val(lead + trail) == d.value as nat);
        assert(trail.len() == scale);
        assert(parse_spec(t) == assemble(d.negative, d.value as nat, scale, false, 0));
    }
    assert(assemble(d.negative, d.value as nat, scale, false, 0) == Ok::<Decimal, ErrorCode>(d));
}

/// Round-trip stability: parsing, rendering and parsing again yields the
/// first parse.
pub proof fn law_parse_display_roundtrip(s: Seq<char>)
    requires
        parse_spec(s) is Ok,
    ensures
        parse_spec(s) matches Ok(d) ==> parse_spec(display_spec(d)) == parse_spec(s),
{
    match parse_spec(s) {
        Ok(d) => {
            assert(d.negative ==> d.value != 0) by {
                lemma_parse_wellformed(s);
            }
            law_display_reparse(d);
        },
        Err(_) => {
        },
    }
}

/// A parsed decimal never carries a negative zero.
proof fn lemma_parse_wellformed(s: Seq<char>)
    requires
        parse_spec(s) is Ok,
    ensures
        parse_spec(s) matches Ok(d) ==> (d.negative ==> d.value != 0),
{
}

/// The binary logarithm of two at the compute scale is exactly one.
pub proof fn lemma_log2_raw_of_two()
    ensures
        log2_raw(2000000000000, 12) == 1000000000000,
        !crate::decimal::ops::log_2::log2_negative(2000000000000, 12),
{
    assert(pow10(12) == 1000000000000nat) by {
        reveal_with_fuel(pow10, 14);
    }
    assert(pow2(1) == 2) by {
        vstd::arithmetic::power2::lemma2_to64();
    }
    assert(2000000000000nat == pow2(1) * pow10(12)) by (nonlinear_arith)
        requires pow2(1) == 2, pow10(12) == 1000000000000nat;
    let sc = pow10(12);
    assert(2000000000000nat / sc == 2) by {
        vstd::arithmetic::div_mod::lemma_div_multiples_vanish(2, sc as int);
    }
    lemma_log2_floor_pow2(1);
    assert(log2_floor(2) == 1) by {
        assert(pow2(1) == 2);
    }
    assert(2000000000000nat / pow2(1) == 1000000000000nat) by {
        vstd::arithmetic::div_mod::lemma_div_multiples_vanish(1000000000000, 2);
    }
}

} // verus!
