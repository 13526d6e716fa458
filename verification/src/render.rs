//! Building output text: decimal rendering of range values, zero padding,
//! and the few character-level string operations the crate needs.
use vstd::prelude::*;

use crate::model::dec_digits;
use crate::model::digit_char;
use crate::model::pad_int;
use crate::model::render_int;
use crate::model::zeros;

verus! {

/// Relies on String::push: appends the one character to the string.
#[verifier::external_body]
pub(crate) fn push_char(s: &mut String, c: char)
    ensures
        final(s)@ == old(s)@.push(c),
{
    s.push(c)
}

/// A string holding exactly the given characters.
pub(crate) fn chars_to_string(v: &Vec<char>) -> (s: String)
    ensures
        s@ == v@,
{
    let mut s = String::new();
    let mut i: usize = 0;
    while i < v.len()
        invariant
            i <= v.len(),
            s@ == v@.subrange(0, i as int),
        decreases v.len() - i,
    {
        push_char(&mut s, v[i]);
        i = i + 1;
        proof {
            assert(s@ =~= v@.subrange(0, i as int));
        }
    }
    proof {
        assert(s@ =~= v@);
    }
    s
}

/// A string holding exactly the one given character.
pub(crate) fn char_to_string(c: char) -> (s: String)
    ensures
        s@ == seq![c],
{
    let mut s = String::new();
    push_char(&mut s, c);
    proof {
        assert(s@ =~= seq![c]);
    }
    s
}

/// The decimal digit character for `d`.
fn digit_to_char(d: u64) -> (c: char)
    requires
        d < 10,
    ensures
        c == digit_char(d as int),
{
    if d == 0 {
        '0'
    } else if d == 1 {
        '1'
    } else if d == 2 {
        '2'
    } else if d == 3 {
        '3'
    } else if d == 4 {
        '4'
    } else if d == 5 {
        '5'
    } else if d == 6 {
        '6'
    } else if d == 7 {
        '7'
    } else if d == 8 {
        '8'
    } else {
        '9'
    }
}

/// The decimal digits of `n`, most significant first.
pub(crate) fn dec_chars(n: u64) -> (r: Vec<char>)
    ensures
        r@ == dec_digits(n as nat),
    decreases n,
{
    if n < 10 {
        let mut v: Vec<char> = Vec::new();
        v.push(digit_to_char(n));
        proof {
            assert(v@ =~= dec_digits(n as nat));
        }
        v
    } else {
        let mut v = dec_chars(n / 10);
        v.push(digit_to_char(n % 10));
        proof {
            assert(v@ =~= dec_digits(n as nat));
        }
        v
    }
}

/// The decimal rendering of an unsigned value as a string.
pub(crate) fn u64_to_string(n: u64) -> (s: String)
    ensures
        s@ == dec_digits(n as nat),
{
    let digits = dec_chars(n);
    chars_to_string(&digits)
}

/// The magnitude of `v` as an unsigned value.
fn magnitude(v: i64) -> (m: u64)
    ensures
        m as int == (if v < 0 { -(v as int) } else { v as int }),
{
    if v >= 0 {
        v as u64
    } else {
        ((-(v + 1)) as u64) + 1
    }
}

/// A numeric range value rendered as decimal text, left-zero-padded to the
/// requested width with the sign kept as the leading character.
pub(crate) fn render_int_value(v: i64, width: Option<usize>) -> (s: String)
    ensures
        s@ == render_int(v as int, width),
{
    let neg = v < 0;
    let digits = dec_chars(magnitude(v));
    match width {
        None => {
            let mut out: Vec<char> = Vec::new();
            if neg {
                out.push('-');
            }
            let mut i: usize = 0;
            while i < digits.len()
                invariant
                    i <= digits.len(),
                    out@ == (if neg {
                        seq!['-']
                    } else {
                        Seq::empty()
                    }) + digits@.subrange(0, i as int),
                decreases digits.len() - i,
            {
                out.push(digits[i]);
                i = i + 1;
                proof {
                    assert(digits@.subrange(0, i as int) =~= digits@.subrange(0, i - 1)
                        + seq![digits@[i - 1]]);
                }
            }
            proof {
                assert(digits@.subrange(0, digits@.len() as int) =~= digits@);
                assert(out@ =~= render_int(v as int, width));
            }
            chars_to_string(&out)
        },
        Some(w) => {
            let mut out: Vec<char> = Vec::new();
            if neg {
                out.push('-');
            }
            let dl = digits.len();
            let pad = if neg {
                if w > dl && w - dl > 1 {
                    w - dl - 1
                } else {
                    0
                }
            } else {
                if w > dl {
                    w - dl
                } else {
                    0
                }
            };
            let ghost used: int = if neg {
                dl + 1
            } else {
                dl as int
            };
            let ghost sign: Seq<char> = if neg {
                seq!['-']
            } else {
                Seq::empty()
            };
            let mut k: usize = 0;
            while k < pad
                invariant
                    k <= pad,
                    out@ == sign + zeros(k as int),
                decreases pad - k,
            {
                out.push('0');
                k = k + 1;
                proof {
                    assert(out@ =~= sign + zeros(k as int));
                }
            }
            let mut i: usize = 0;
            while i < digits.len()
                invariant
                    i <= digits.len(),
                    out@ == sign + zeros(pad as int) + digits@.subrange(0, i as int),
                decreases digits.len() - i,
            {
                out.push(digits[i]);
                i = i + 1;
                proof {
                    assert(out@ =~= sign + zeros(pad as int) + digits@.subrange(0, i as int));
                }
            }
            proof {
                assert(digits@.subrange(0, digits@.len() as int) =~= digits@);
                assert(zeros(pad as int) =~= zeros(w - used));
                assert(out@ =~= pad_int(v as int, w as int));
            }
            chars_to_string(&out)
        },
    }
}

} // verus!
