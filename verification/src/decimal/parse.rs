//! Parsing decimal text: an optional leading minus, digits with an
//! optional fractional part, and an optional exponent that shifts the
//! scale.

use vstd::prelude::*;

use crate::decimal::base::Decimal;
use crate::decimal::errors::ErrorCode;
use crate::math::{lemma_pow10_38_fits, lemma_pow10_increases, lemma_pow10_pos, pow10, pow10_u128};

verus! {

/// A decimal digit.
pub open spec fn is_digit(c: char) -> bool {
    48 <= c as u32 <= 57
}

/// The value of one digit character.
pub open spec fn digit_val(c: char) -> nat {
    (c as u32 - 48) as nat
}

/// Every character is a digit.
pub open spec fn all_digits(s: Seq<char>) -> bool {
    forall|i: int| 0 <= i < s.len() ==> is_digit(#[trigger] s[i])
}

/// The number read from a digit string, most significant first.
pub open spec fn digits_val(s: Seq<char>) -> nat
    decreases s.len(),
{
    if s.len() == 0 {
        0
    } else {
        digits_val(s.drop_last()) * 10 + digit_val(s.last())
    }
}

/// An exponent marker.
pub open spec fn is_exp_char(c: char) -> bool {
    c == 'e' || c == 'E'
}

/// The position of the first exponent marker at or after `i`, or the
/// length when there is none.
pub open spec fn find_exp_from(s: Seq<char>, i: int) -> int
    decreases s.len() - i,
{
    if i < 0 || i >= s.len() {
        s.len() as int
    } else if is_exp_char(s[i]) {
        i
    } else {
        find_exp_from(s, i + 1)
    }
}

/// The position of the first decimal point at or after `i` but before
/// `el`, or `el` when there is none.
pub open spec fn find_dot_from(s: Seq<char>, i: int, el: int) -> int
    decreases el - i,
{
    if i < 0 || i >= el || i >= s.len() {
        el
    } else if s[i] == '.' {
        i
    } else {
        find_dot_from(s, i + 1, el)
    }
}

/// What parsing a character sequence returns.  The mantissa before the
/// first exponent marker must be an optional minus and digits around at
/// most one point; the exponent an optional sign and digits.  A positive
/// exponent becomes the result's scale, pre-scaling the magnitude; a
/// negative one deepens the scale.
pub open spec fn parse_spec(s: Seq<char>) -> Result<Decimal, ErrorCode> {
    let el = find_exp_from(s, 0);
    if el == 0 {
        Err(ErrorCode::ParseErrorEmpty)
    } else {
        let negative = s[0] == '-';
        let start: int = if negative {
            1
        } else {
            0
        };
        let dot = find_dot_from(s, start, el);
        let grammar_ok = if dot == el {
            el - start >= 1 && all_digits(s.subrange(start, el))
        } else {
            dot > start && dot + 1 < el && all_digits(s.subrange(start, dot)) && all_digits(
                s.subrange(dot + 1, el),
            )
        };
        if !grammar_ok {
            Err(ErrorCode::ParseError)
        } else {
            let digits = if dot == el {
                s.subrange(start, el)
            } else {
                s.subrange(start, dot) + s.subrange(dot + 1, el)
            };
            let d = digits_val(digits);
            let frac: nat = if dot == el {
                0
            } else {
                (el - dot - 1) as nat
            };
            let exp_ok = el >= s.len() || {
                let signed = el + 1 < s.len() && (s[el + 1] == '+' || s[el + 1] == '-');
                let estart = if signed {
                    el + 2
                } else {
                    el + 1
                };
                estart < s.len() && all_digits(s.subrange(estart, s.len() as int))
                    && digits_val(s.subrange(estart, s.len() as int)) <= i64::MAX
            };
            if !exp_ok {
                Err(ErrorCode::ParseError)
            } else {
                let eneg = el + 1 < s.len() && s[el + 1] == '-';
                let emag: nat = if el >= s.len() {
                    0
                } else {
                    let signed = el + 1 < s.len() && (s[el + 1] == '+' || s[el + 1] == '-');
                    let estart = if signed {
                        el + 2
                    } else {
                        el + 1
                    };
                    digits_val(s.subrange(estart, s.len() as int))
                };
                assemble(negative, d, frac, eneg, emag)
            }
        }
    }
}

/// The assembly of a parsed mantissa and exponent into a decimal: a
/// positive exponent pre-scales the magnitude and becomes the scale, any
/// other exponent deepens the scale by its magnitude.
pub open spec fn assemble(negative: bool, d: nat, frac: nat, eneg: bool, emag: nat) -> Result<
    Decimal,
    ErrorCode,
> {
    if d > u128::MAX {
        Err(ErrorCode::ExceedsRange)
    } else if !eneg && emag > 0 {
        if emag > 38 || frac > emag + 38 {
            Err(ErrorCode::ExceedsRange)
        } else {
            let v1 = if emag >= frac {
                d * pow10((emag - frac) as nat)
            } else {
                d / pow10((frac - emag) as nat)
            };
            if v1 > u128::MAX || v1 * pow10(emag) > u128::MAX {
                Err(ErrorCode::ExceedsRange)
            } else {
                Ok(
                    Decimal {
                        value: (v1 * pow10(emag)) as u128,
                        scale: emag as u8,
                        negative: negative && v1 * pow10(emag) != 0,
                    },
                )
            }
        }
    } else {
        if frac + emag > 255 {
            Err(ErrorCode::ExceedsPrecisionRange)
        } else {
            Ok(
                Decimal {
                    value: d as u128,
                    scale: (frac + emag) as u8,
                    negative: negative && d != 0,
                },
            )
        }
    }
}

impl Decimal {
    /// Parse decimal text of the form `-?digits(.digits)?([eE][+-]?digits)?`.
    pub fn from_str(s: &str) -> (r: Result<Decimal, ErrorCode>)
        ensures
            r == parse_spec(s@),
    {
        Decimal::from_str_radix(s, 10)
    }

    /// Converts a string slice in a given base to a [`Decimal`]; only
    /// base 10 is accepted.
    #[verifier::rlimit(100)]
    pub fn from_str_radix(s: &str, radix: u32) -> (r: Result<Decimal, ErrorCode>)
        ensures
            radix != 10 ==> r == Err::<Decimal, ErrorCode>(ErrorCode::ParseErrorBase10),
            radix == 10 ==> r == parse_spec(s@),
    {
        if radix != 10 {
            return Err(ErrorCode::ParseErrorBase10);
        }
        let len = s.unicode_len();

        // find the exponent marker
        let mut el: usize = 0;
        while el < len && !is_exp_char_exec(s.get_char(el))
            invariant
                0 <= el <= len,
                len == s@.len(),
                forall|j: int| 0 <= j < el ==> !is_exp_char(#[trigger] s@[j]),
            decreases len - el,
        {
            el = el + 1;
        }
        proof {
            lemma_find_exp(s@, 0, el as int);
        }

        if el == 0 {
            return Err(ErrorCode::ParseErrorEmpty);
        }

        // the optional sign
        let negative = s.get_char(0) == '-';
        let start: usize = if negative {
            1
        } else {
            0
        };

        // find the decimal point inside the mantissa
        let mut dot: usize = start;
        while dot < el && s.get_char(dot) != '.'
            invariant
                start <= dot <= el <= len,
                len == s@.len(),
                forall|j: int| start <= j < dot ==> s@[j] != '.',
            decreases el - dot,
        {
            dot = dot + 1;
        }
        proof {
            lemma_find_dot(s@, start as int, dot as int, el as int);
        }

        // the mantissa grammar: digits around at most one point
        if dot == el {
            if start == el || !check_digits(s, start, el) {
                return Err(ErrorCode::ParseError);
            }
        } else {
            if dot == start || dot + 1 == el || !check_digits(s, start, dot) || !check_digits(
                s,
                dot + 1,
                el,
            ) {
                return Err(ErrorCode::ParseError);
            }
        }

        let frac: usize = if dot < el {
            el - dot - 1
        } else {
            0
        };

        // the exponent part
        let mut eneg = false;
        let mut emag: u128 = 0;
        if el < len {
            let mut estart: usize = el + 1;
            if el + 1 < len {
                let c0 = s.get_char(el + 1);
                if c0 == '+' || c0 == '-' {
                    eneg = c0 == '-';
                    estart = el + 2;
                }
            }
            if estart >= len || !check_digits(s, estart, len) {
                return Err(ErrorCode::ParseError);
            }
            emag = match digits_value_capped(s, estart, len, i64::MAX as u128) {
                Some(v) => v,
                None => {
                    return Err(ErrorCode::ParseError);
                },
            };
        }

        // the magnitude read from the digits, skipping the point
        let ghost full: Seq<char> = if dot == el {
            s@.subrange(start as int, el as int)
        } else {
            s@.subrange(start as int, dot as int) + s@.subrange(dot + 1, el as int)
        };
        let value = match mantissa_value(s, start, dot, el) {
            Some(v) => v,
            None => {
                proof {
                    lemma_assembly(s@, el as int, dot as int, start as int, negative,
                        digits_val(full), frac as nat, eneg, emag as nat);
                }
                return Err(ErrorCode::ExceedsRange);
            },
        };
        proof {
            lemma_assembly(s@, el as int, dot as int, start as int, negative, value as nat,
                frac as nat, eneg, emag as nat);
        }

        // assemble the result
        if !eneg && emag > 0 {
            if emag > 38 || frac as u128 > emag + 38 {
                return Err(ErrorCode::ExceedsRange);
            }
            let e8 = emag as u8;
            let v1: u128 = if emag >= frac as u128 {
                proof {
                    lemma_pow10_in_range((e8 - frac as u8) as u8);
                }
                let p = pow10_u128(e8 - frac as u8);
                proof {
                    lemma_div_mul_order(value as nat, p as nat);
                }
                if value > u128::MAX / p {
                    return Err(ErrorCode::ExceedsRange);
                }
                value * p
            } else {
                proof {
                    lemma_pow10_in_range((frac as u8 - e8) as u8);
                }
                value / pow10_u128(frac as u8 - e8)
            };
            proof {
                lemma_pow10_in_range(e8);
            }
            let p2 = pow10_u128(e8);
            proof {
                lemma_div_mul_order(v1 as nat, p2 as nat);
            }
            if v1 > u128::MAX / p2 {
                return Err(ErrorCode::ExceedsRange);
            }
            Ok(Decimal::new(v1 * p2, e8, negative))
        } else {
            if frac as u128 + emag > 255 {
                return Err(ErrorCode::ExceedsPrecisionRange);
            }
            Ok(Decimal::new(value, (frac as u128 + emag) as u8, negative))
        }
    }
}

/// Whether a region holds digits only.
fn check_digits(s: &str, from: usize, to: usize) -> (ok: bool)
    requires
        from <= to <= s@.len(),
    ensures
        ok == all_digits(s@.subrange(from as int, to as int)),
{
    let ghost region: Seq<char> = s@.subrange(from as int, to as int);
    let mut i: usize = from;
    while i < to
        invariant
            from <= i <= to <= s@.len(),
            region == s@.subrange(from as int, to as int),
            forall|j: int| 0 <= j < i - from ==> is_digit(#[trigger] region[j]),
        decreases to - i,
    {
        let c = s.get_char(i);
        let cv = c as u32;
        if cv < 48 || cv > 57 {
            proof {
                assert(region[i - from] == s@[i as int]);
                assert(!is_digit(region[i - from]));
            }
            return false;
        }
        proof {
            assert(region[i - from] == s@[i as int]);
        }
        i = i + 1;
    }
    true
}

/// The magnitude of the mantissa region, the decimal point skipped;
/// nothing where the digits exceed the 128-bit range.
fn mantissa_value(s: &str, start: usize, dot: usize, el: usize) -> (r: Option<u128>)
    requires
        start <= dot <= el <= s@.len(),
        dot == el ==> all_digits(s@.subrange(start as int, el as int)),
        dot < el ==> all_digits(s@.subrange(start as int, dot as int)) && all_digits(
            s@.subrange(dot + 1, el as int),
        ),
    ensures
        ({
            let full = if dot == el {
                s@.subrange(start as int, el as int)
            } else {
                s@.subrange(start as int, dot as int) + s@.subrange(dot + 1, el as int)
            };
            match r {
                Some(v) => v == digits_val(full),
                None => digits_val(full) > u128::MAX,
            }
        }),
{
    let ghost full: Seq<char> = if dot == el {
        s@.subrange(start as int, el as int)
    } else {
        s@.subrange(start as int, dot as int) + s@.subrange(dot + 1, el as int)
    };
    let mut value: u128 = 0;
    let mut i: usize = start;
    let ghost mut seen: Seq<char> = Seq::empty();
    proof {
        assert(seen =~= s@.subrange(start as int, start as int));
    }
    while i < el
        invariant
            start <= i <= el <= s@.len(),
            start <= dot <= el,
            dot == el ==> all_digits(s@.subrange(start as int, el as int)),
            dot < el ==> all_digits(s@.subrange(start as int, dot as int)) && all_digits(
                s@.subrange(dot + 1, el as int),
            ) && s@[dot as int] == s@[dot as int],
            full == (if dot == el {
                s@.subrange(start as int, el as int)
            } else {
                s@.subrange(start as int, dot as int) + s@.subrange(dot + 1, el as int)
            }),
            value == digits_val(seen),
            seen =~= (if i <= dot {
                s@.subrange(start as int, i as int)
            } else {
                s@.subrange(start as int, dot as int) + s@.subrange(dot + 1, i as int)
            }),
        decreases el - i,
    {
        if i == dot {
            i = i + 1;
            proof {
                assert(seen =~= s@.subrange(start as int, dot as int) + s@.subrange(
                    dot + 1,
                    i as int,
                ));
            }
            continue;
        }
        let c = s.get_char(i);
        let ghost cval: nat = digit_val(c);
        proof {
            if i < dot {
                assert(s@.subrange(start as int, dot as int)[i - start] == s@[i as int]);
            } else if dot < el {
                assert(s@.subrange(dot + 1, el as int)[i - dot - 1] == s@[i as int]);
            } else {
                assert(s@.subrange(start as int, el as int)[i - start] == s@[i as int]);
            }
            assert(is_digit(c));
        }
        let cv = c as u32;
        if value > (u128::MAX - (cv - 48) as u128) / 10 {
            proof {
                lemma_acc_step_over(value as nat, cval);
                let pushed = seen.push(c);
                assert(pushed.drop_last() =~= seen);
                assert(digits_val(pushed) == value * 10 + cval);
                lemma_prefix_monotone(pushed, full, s@, start as int, dot as int, el as int,
                    i as int);
            }
            return None;
        }
        proof {
            lemma_acc_step_fits(value as nat, cval);
        }
        let ghost pre_seen = seen;
        value = value * 10 + (cv - 48) as u128;
        proof {
            seen = seen.push(c);
            assert(seen.drop_last() =~= pre_seen);
            assert(seen.last() == c);
        }
        i = i + 1;
        proof {
            if i <= dot {
                assert(seen =~= s@.subrange(start as int, i as int));
            } else {
                assert(seen =~= s@.subrange(start as int, dot as int) + s@.subrange(
                    dot + 1,
                    i as int,
                ));
            }
        }
    }
    proof {
        assert(seen =~= full);
    }
    Some(value)
}

/// The value of a pure digit region, bounded by a cap; nothing where the
/// digits exceed it.
fn digits_value_capped(s: &str, from: usize, to: usize, cap: u128) -> (r: Option<u128>)
    requires
        from <= to <= s@.len(),
        all_digits(s@.subrange(from as int, to as int)),
        cap >= 9,
    ensures
        ({
            let region = s@.subrange(from as int, to as int);
            match r {
                Some(v) => v == digits_val(region) && v <= cap,
                None => digits_val(region) > cap,
            }
        }),
{
    let ghost region: Seq<char> = s@.subrange(from as int, to as int);
    let mut value: u128 = 0;
    let mut i: usize = from;
    let ghost mut seen: Seq<char> = Seq::empty();
    proof {
        assert(seen =~= s@.subrange(from as int, from as int));
    }
    while i < to
        invariant
            from <= i <= to <= s@.len(),
            region == s@.subrange(from as int, to as int),
            all_digits(region),
            cap >= 9,
            value == digits_val(seen),
            value <= cap,
            seen =~= s@.subrange(from as int, i as int),
        decreases to - i,
    {
        let c = s.get_char(i);
        let ghost cval: nat = digit_val(c);
        proof {
            assert(region[i - from] == s@[i as int]);
            assert(is_digit(c));
        }
        let cv = c as u32;
        if value > (cap - (cv - 48) as u128) / 10 {
            proof {
                lemma_acc_step_over_cap(value as nat, cval, cap as nat);
                let pushed = seen.push(c);
                assert(pushed.drop_last() =~= seen);
                assert(digits_val(pushed) == value * 10 + cval);
                assert(pushed =~= s@.subrange(from as int, i + 1));
                lemma_eprefix_monotone(pushed, region, s@, from as int, to as int, i as int);
            }
            return None;
        }
        proof {
            lemma_acc_step_fits_cap(value as nat, cval, cap as nat);
        }
        let ghost pre_seen = seen;
        value = value * 10 + (cv - 48) as u128;
        proof {
            seen = seen.push(c);
            assert(seen.drop_last() =~= pre_seen);
            assert(seen.last() == c);
        }
        i = i + 1;
        proof {
            assert(seen =~= s@.subrange(from as int, i as int));
        }
    }
    proof {
        assert(seen =~= region);
    }
    Some(value)
}

/// With the scan results in hand, parsing reduces to the assembly of the
/// mantissa and exponent values.
proof fn lemma_assembly(
    s: Seq<char>,
    el: int,
    dot: int,
    start: int,
    negative: bool,
    value: nat,
    frac: nat,
    eneg: bool,
    emag: nat,
)
    requires
        find_exp_from(s, 0) == el,
        0 < el <= s.len(),
        negative == (s[0] == '-'),
        start == (if negative {
            1int
        } else {
            0int
        }),
        find_dot_from(s, start, el) == dot,
        start <= dot <= el,
        dot == el ==> el - start >= 1 && all_digits(s.subrange(start, el)),
        dot < el ==> dot > start && dot + 1 < el && all_digits(s.subrange(start, dot))
            && all_digits(s.subrange(dot + 1, el)),
        value == digits_val(
            if dot == el {
                s.subrange(start, el)
            } else {
                s.subrange(start, dot) + s.subrange(dot + 1, el)
            },
        ),
        frac == (if dot == el {
            0nat
        } else {
            (el - dot - 1) as nat
        }),
        eneg == (el + 1 < s.len() && s[el + 1] == '-'),
        el >= s.len() ==> emag == 0,
        el < s.len() ==> ({
            let signed = el + 1 < s.len() && (s[el + 1] == '+' || s[el + 1] == '-');
            let estart = if signed {
                el + 2
            } else {
                el + 1
            };
            estart < s.len() && all_digits(s.subrange(estart, s.len() as int)) && digits_val(
                s.subrange(estart, s.len() as int),
            ) == emag && emag <= i64::MAX
        }),
    ensures
        parse_spec(s) == assemble(negative, value, frac, eneg, emag),
{
    // unfolding the parser against the scan facts leaves only the assembly
}

/// An exponent marker, in executable form.
fn is_exp_char_exec(c: char) -> (r: bool)
    ensures
        r == is_exp_char(c),
{
    c == 'e' || c == 'E'
}

/// The scan that stops at the first exponent marker finds what the spec
/// finder names.
pub proof fn lemma_find_exp(s: Seq<char>, i: int, el: int)
    requires
        0 <= i <= el <= s.len(),
        forall|j: int| i <= j < el ==> !is_exp_char(#[trigger] s[j]),
        el < s.len() ==> is_exp_char(s[el]),
    ensures
        find_exp_from(s, i) == el,
    decreases el - i,
{
    if i < el {
        lemma_find_exp(s, i + 1, el);
    }
}

/// The scan that stops at the first decimal point finds what the spec
/// finder names.
pub proof fn lemma_find_dot(s: Seq<char>, i: int, dot: int, el: int)
    requires
        0 <= i <= dot <= el <= s.len(),
        forall|j: int| i <= j < dot ==> s[j] != '.',
        dot < el ==> s[dot] == '.',
    ensures
        find_dot_from(s, i, el) == dot,
    decreases dot - i,
{
    if i < dot {
        lemma_find_dot(s, i + 1, dot, el);
    }
}

/// Reading digits left to right: appending one digit scales the value by
/// ten; overflow at one step means the whole string is out of range.
proof fn lemma_acc_step_fits(v: nat, d: nat)
    requires
        d < 10,
        v <= ((u128::MAX as nat) - d) / 10,
    ensures
        v * 10 + d <= u128::MAX,
{
    lemma_acc_step_fits_cap(v, d, u128::MAX as nat);
}

proof fn lemma_acc_step_over(v: nat, d: nat)
    requires
        d < 10,
        v > ((u128::MAX as nat) - d) / 10,
    ensures
        v * 10 + d > u128::MAX,
{
    lemma_acc_step_over_cap(v, d, u128::MAX as nat);
}

proof fn lemma_acc_step_fits_cap(v: nat, d: nat, cap: nat)
    requires
        d < 10,
        d <= cap,
        v <= (cap - d) / 10,
    ensures
        v * 10 + d <= cap,
{
    let m = (cap - d) as nat;
    vstd::arithmetic::div_mod::lemma_fundamental_div_mod(m as int, 10);
    vstd::arithmetic::div_mod::lemma_mod_bound(m as int, 10);
    assert(v * 10 <= (m / 10) * 10) by (nonlinear_arith)
        requires v <= m / 10;
    assert((m / 10) * 10 <= m) by (nonlinear_arith)
        requires m == 10 * (m / 10) + (m % 10), m % 10 >= 0;
}

proof fn lemma_acc_step_over_cap(v: nat, d: nat, cap: nat)
    requires
        d < 10,
        d <= cap,
        v > (cap - d) / 10,
    ensures
        v * 10 + d > cap,
{
    let m = (cap - d) as nat;
    vstd::arithmetic::div_mod::lemma_fundamental_div_mod(m as int, 10);
    vstd::arithmetic::div_mod::lemma_mod_bound(m as int, 10);
    assert(v * 10 >= (m / 10 + 1) * 10) by (nonlinear_arith)
        requires v >= m / 10 + 1;
    assert((m / 10 + 1) * 10 > m) by (nonlinear_arith)
        requires m == 10 * (m / 10) + (m % 10), m % 10 < 10, m % 10 >= 0;
}

/// A digit string concatenation splits the value at a power of ten.
pub proof fn lemma_digits_val_concat(a: Seq<char>, b: Seq<char>)
    ensures
        digits_val(a + b) == digits_val(a) * pow10(b.len()) + digits_val(b),
    decreases b.len(),
{
    if b.len() == 0 {
        assert(a + b =~= a);
        assert(pow10(0) == 1);
    } else {
        lemma_digits_val_concat(a, b.drop_last());
        assert((a + b).drop_last() =~= a + b.drop_last());
        assert((a + b).last() == b.last());
        assert(pow10(b.len()) == 10 * pow10((b.len() - 1) as nat));
        assert(digits_val(a) * (10 * pow10((b.len() - 1) as nat)) == (digits_val(a) * pow10(
            (b.len() - 1) as nat,
        )) * 10) by (nonlinear_arith);
    }
}

/// Once a prefix of the digits already exceeds the range, the full digit
/// string does too.
proof fn lemma_prefix_monotone(
    seen: Seq<char>,
    full: Seq<char>,
    s: Seq<char>,
    start: int,
    dot: int,
    el: int,
    i: int,
)
    requires
        0 <= start <= i < el <= s.len(),
        start <= dot <= el,
        i != dot,
        full == (if dot == el {
            s.subrange(start, el)
        } else {
            s.subrange(start, dot) + s.subrange(dot + 1, el)
        }),
        seen =~= (if i < dot {
            s.subrange(start, i + 1)
        } else {
            s.subrange(start, dot) + s.subrange(dot + 1, i + 1)
        }),
    ensures
        digits_val(full) >= digits_val(seen),
{
    let rest: Seq<char> = if i < dot {
        if dot == el {
            s.subrange(i + 1, el)
        } else {
            s.subrange(i + 1, dot) + s.subrange(dot + 1, el)
        }
    } else {
        s.subrange(i + 1, el)
    };
    assert(full =~= seen + rest);
    lemma_digits_val_concat(seen, rest);
    lemma_pow10_pos(rest.len());
    assert(digits_val(seen) * pow10(rest.len()) >= digits_val(seen) * 1) by (nonlinear_arith)
        requires pow10(rest.len()) >= 1, digits_val(seen) >= 0;
}

/// The same, for a plain digit region.
proof fn lemma_eprefix_monotone(seen: Seq<char>, full: Seq<char>, s: Seq<char>, from: int,
    to: int, j: int)
    requires
        0 <= from <= j < to <= s.len(),
        full == s.subrange(from, to),
        seen =~= s.subrange(from, j + 1),
    ensures
        digits_val(full) >= digits_val(seen),
{
    let rest = s.subrange(j + 1, to);
    assert(full =~= seen + rest);
    lemma_digits_val_concat(seen, rest);
    lemma_pow10_pos(rest.len());
    assert(digits_val(seen) * pow10(rest.len()) >= digits_val(seen) * 1) by (nonlinear_arith)
        requires pow10(rest.len()) >= 1, digits_val(seen) >= 0;
}

/// Powers of ten up to 38 places fit a `u128`.
proof fn lemma_pow10_in_range(e: u8)
    requires
        e <= 38,
    ensures
        pow10(e as nat) >= 1,
        pow10(e as nat) <= u128::MAX,
{
    lemma_pow10_pos(e as nat);
    lemma_pow10_increases(e as nat, 38);
    lemma_pow10_38_fits();
}

/// Division against multiplication: `a <= M / p` exactly captures
/// `a * p <= M`.
proof fn lemma_div_mul_order(a: nat, p: nat)
    requires
        p >= 1,
    ensures
        a <= (u128::MAX as nat) / p ==> a * p <= u128::MAX,
        a > (u128::MAX as nat) / p ==> a * p > u128::MAX,
{
    let m = u128::MAX as nat;
    vstd::arithmetic::div_mod::lemma_fundamental_div_mod(m as int, p as int);
    vstd::arithmetic::div_mod::lemma_mod_bound(m as int, p as int);
    if a <= m / p {
        assert(a * p <= (m / p) * p) by (nonlinear_arith)
            requires a <= m / p, p >= 1;
        assert((m / p) * p <= m) by (nonlinear_arith)
            requires m == p * (m / p) + (m % p), m % p >= 0;
    } else {
        assert(a * p >= (m / p + 1) * p) by (nonlinear_arith)
            requires a >= m / p + 1, p >= 1;
        assert((m / p + 1) * p > m) by (nonlinear_arith)
            requires m == p * (m / p) + (m % p), m % p < p, m % p >= 0, p >= 1;
    }
}

} // verus!
