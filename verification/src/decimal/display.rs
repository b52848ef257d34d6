//! Rendering a decimal as text: the digits of the magnitude with the
//! decimal point inserted `scale` places from the right, left-padded with
//! zeros where the scale exceeds the digit count, and a leading minus for
//! negative values.

use vstd::prelude::*;

use crate::decimal::base::Decimal;
use vstd::arithmetic::div_mod::{lemma_fundamental_div_mod, lemma_mod_bound};

verus! {

/// The character for one decimal digit.
pub open spec fn digit_char(d: nat) -> char {
    if d == 0 {
        '0'
    } else if d == 1 {
        '1'
    } else if d == 2 {
        '2'
    } else if d == 3 {
        '3'
    } else if d == 4 {
        '4'
    } else if d == 5 {
        '5'
    } else if d == 6 {
        '6'
    } else if d == 7 {
        '7'
    } else if d == 8 {
        '8'
    } else {
        '9'
    }
}

/// The decimal digits of `n`, most significant first; zero is the single
/// digit `0`.
pub open spec fn digits_of(n: nat) -> Seq<char>
    decreases n,
{
    if n < 10 {
        seq![digit_char(n)]
    } else {
        digits_of(n / 10).push(digit_char(n % 10))
    }
}

/// `n` zeros.
pub open spec fn zero_chars(n: nat) -> Seq<char> {
    Seq::new(n, |i: int| '0')
}

/// The rendered text of a decimal: digits with the point `scale` places
/// from the right, zero-padded when the digit count is smaller, and a
/// minus sign in front of negative values.
pub open spec fn display_spec(d: Decimal) -> Seq<char> {
    let digits = digits_of(d.value as nat);
    let scale = d.scale as nat;
    let body = if scale == 0 {
        digits
    } else if scale >= digits.len() {
        seq!['0', '.'] + zero_chars((scale - digits.len()) as nat) + digits
    } else {
        digits.subrange(0, digits.len() - scale) + seq!['.'] + digits.subrange(
            digits.len() - scale,
            digits.len() as int,
        )
    };
    if d.negative {
        seq!['-'] + body
    } else {
        body
    }
}

/// The text of one digit.
fn digit_str(d: u8) -> (r: &'static str)
    requires
        d < 10,
    ensures
        r@ =~= seq![digit_char(d as nat)],
{
    proof {
        reveal_strlit("0");
        reveal_strlit("1");
        reveal_strlit("2");
        reveal_strlit("3");
        reveal_strlit("4");
        reveal_strlit("5");
        reveal_strlit("6");
        reveal_strlit("7");
        reveal_strlit("8");
        reveal_strlit("9");
    }
    match d {
        0 => "0",
        1 => "1",
        2 => "2",
        3 => "3",
        4 => "4",
        5 => "5",
        6 => "6",
        7 => "7",
        8 => "8",
        _ => "9",
    }
}

/// The decimal digits of `v`, least significant first.
fn collect_digits(v: u128) -> (r: Vec<u8>)
    ensures
        r@.len() == digits_of(v as nat).len(),
        forall|i: int|
            0 <= i < r@.len() ==> r@[i] < 10 && digits_of(v as nat)[r@.len() - 1 - i]
                == digit_char(r@[i] as nat),
{
    let mut digits: Vec<u8> = Vec::new();
    let mut t = v;
    if t == 0 {
        digits.push(0);
        return digits;
    }
    while t > 0
        invariant
            v > 0,
            t >= 0,
            t > 0 ==> digits_of(v as nat) =~= digits_of(t as nat) + mapped_rev(digits@),
            t == 0 ==> v > 0 && digits_of(v as nat) =~= mapped_rev(digits@),
            forall|i: int| 0 <= i < digits@.len() ==> digits@[i] < 10,
        decreases t,
    {
        let ghost pre = digits@;
        proof {
            lemma_fundamental_div_mod(t as int, 10);
            lemma_mod_bound(t as int, 10);
        }
        digits.push((t % 10) as u8);
        proof {
            assert(mapped_rev(digits@) =~= seq![digit_char((t % 10) as nat)] + mapped_rev(pre));
            if t >= 10 {
                assert(digits_of(t as nat) =~= digits_of((t / 10) as nat) + seq![
                    digit_char((t % 10) as nat)
                ]);
                assert(digits_of(v as nat) =~= digits_of((t / 10) as nat) + mapped_rev(
                    digits@,
                ));
            } else {
                assert(digits_of(t as nat) =~= seq![digit_char(t as nat)]);
                assert(digits_of(v as nat) =~= mapped_rev(digits@));
            }
        }
        t = t / 10;
    }
    digits
}

/// The digit characters of a least-significant-first digit list, read
/// back most significant first.
pub open spec fn mapped_rev(ds: Seq<u8>) -> Seq<char> {
    Seq::new(ds.len(), |i: int| digit_char(ds[ds.len() - 1 - i] as nat))
}

impl Decimal {
    /// Render the value as text.
    pub fn to_string(&self) -> (r: String)
        ensures
            r@ == display_spec(*self),
    {
        let digits = collect_digits(self.value);
        let n = digits.len();
        let ghost target: Seq<char> = display_spec(*self);
        let ghost ds: Seq<char> = digits_of(self.value as nat);

        let mut rep = String::new();
        if self.negative {
            proof {
                reveal_strlit("-");
            }
            rep.append("-");
        }
        proof {
            assert(ds.len() == n);
        }

        let scale_sz = self.scale as usize;
        if scale_sz == 0 {
            // no decimal point: the digits alone
            let mut i: usize = n;
            while i > 0
                invariant
                    i <= n,
                    n == digits@.len(),
                    ds.len() == n,
                    forall|k: int|
                        0 <= k < n ==> digits@[k] < 10 && ds[n - 1 - k] == digit_char(
                            digits@[k] as nat,
                        ),
                    rep@ =~= (if self.negative {
                        seq!['-']
                    } else {
                        Seq::<char>::empty()
                    }) + ds.subrange(0, n - i),
                decreases i,
            {
                rep.append(digit_str(digits[i - 1]));
                proof {
                    assert(ds.subrange(0, n - (i - 1)) =~= ds.subrange(0, n - i).push(
                        ds[n - i as int],
                    ));
                }
                i = i - 1;
            }
            proof {
                assert(ds.subrange(0, n as int) =~= ds);
                assert(rep@ =~= target);
            }
            return rep;
        }

        if scale_sz >= n {
            // a pure fraction: zero, point, padding zeros, digits
            proof {
                reveal_strlit("0.");
                reveal_strlit("0");
            }
            rep.append("0.");
            let ghost head: Seq<char> = (if self.negative {
                seq!['-']
            } else {
                Seq::<char>::empty()
            }) + seq!['0', '.'];
            let mut pad: usize = scale_sz - n;
            proof {
                assert(rep@ =~= head + zero_chars(0));
            }
            while pad > 0
                invariant
                    pad <= scale_sz - n,
                    scale_sz <= 255,
                    rep@ =~= head + zero_chars((scale_sz - n - pad) as nat),
                decreases pad,
            {
                rep.append("0");
                proof {
                    reveal_strlit("0");
                    assert(zero_chars((scale_sz - n - (pad - 1)) as nat) =~= zero_chars(
                        (scale_sz - n - pad) as nat,
                    ).push('0'));
                }
                pad = pad - 1;
            }
            let mut i: usize = n;
            while i > 0
                invariant
                    i <= n,
                    n == digits@.len(),
                    ds.len() == n,
                    n <= scale_sz <= 255,
                    forall|k: int|
                        0 <= k < n ==> digits@[k] < 10 && ds[n - 1 - k] == digit_char(
                            digits@[k] as nat,
                        ),
                    rep@ =~= head + zero_chars((scale_sz - n) as nat) + ds.subrange(0, n - i),
                decreases i,
            {
                rep.append(digit_str(digits[i - 1]));
                proof {
                    assert(ds.subrange(0, n - (i - 1)) =~= ds.subrange(0, n - i).push(
                        ds[n - i as int],
                    ));
                }
                i = i - 1;
            }
            proof {
                assert(ds.subrange(0, n as int) =~= ds);
                assert(rep@ =~= target);
            }
            return rep;
        }

        // integer digits, point, fractional digits
        let cut = n - scale_sz;
        let ghost head: Seq<char> = if self.negative {
            seq!['-']
        } else {
            Seq::<char>::empty()
        };
        let mut i: usize = n;
        while i > scale_sz
            invariant
                scale_sz <= i <= n,
                n == digits@.len(),
                ds.len() == n,
                scale_sz < n,
                forall|k: int|
                    0 <= k < n ==> digits@[k] < 10 && ds[n - 1 - k] == digit_char(
                        digits@[k] as nat,
                    ),
                rep@ =~= head + ds.subrange(0, n - i),
            decreases i,
        {
            rep.append(digit_str(digits[i - 1]));
            proof {
                assert(ds.subrange(0, n - (i - 1)) =~= ds.subrange(0, n - i).push(
                    ds[n - i as int],
                ));
            }
            i = i - 1;
        }
        proof {
            reveal_strlit(".");
        }
        rep.append(".");
        proof {
            assert(rep@ =~= head + ds.subrange(0, cut as int) + seq!['.']);
        }
        while i > 0
            invariant
                i <= scale_sz,
                n == digits@.len(),
                ds.len() == n,
                scale_sz < n,
                cut == n - scale_sz,
                forall|k: int|
                    0 <= k < n ==> digits@[k] < 10 && ds[n - 1 - k] == digit_char(
                        digits@[k] as nat,
                    ),
                rep@ =~= head + ds.subrange(0, cut as int) + seq!['.'] + ds.subrange(
                    cut as int,
                    n - i,
                ),
            decreases i,
        {
            rep.append(digit_str(digits[i - 1]));
            proof {
                assert(ds.subrange(cut as int, n - (i - 1)) =~= ds.subrange(cut as int, n
                    - i).push(ds[n - i as int]));
            }
            i = i - 1;
        }
        proof {
            assert(ds.subrange(cut as int, n as int) =~= ds.subrange(cut as int, n as int));
            assert(rep@ =~= target);
        }
        rep
    }
}

} // verus!
