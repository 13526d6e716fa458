//! The recursive-descent grammar: braces open either a numeric range, a
//! character range or an alternatives list, tried in that order; backslash
//! escapes the structural characters; the whole input must be consumed.
//!
//! The spec functions describe the parse mathematically over the character
//! sequence; the executable parser below them is proved to agree with that
//! description exactly, including every failure case.
use vstd::prelude::*;

use crate::Expression;
use crate::List;
use crate::Part;
use crate::Sequence;
use crate::model::PartView;
use crate::render;
use crate::sequence;

verus! {

/// Whether `c` is a decimal digit.
pub open spec fn is_digit_char(c: char) -> bool {
    48 <= (c as u32) <= 57
}

/// The numeric value of a digit character.
pub open spec fn digit_val(c: char) -> int {
    (c as u32) - 48
}

/// How many consecutive digits stand at `pos`.
pub open spec fn digit_run_len(s: Seq<char>, pos: int) -> nat
    decreases s.len() - pos,
{
    if 0 <= pos < s.len() && is_digit_char(s[pos]) {
        1 + digit_run_len(s, pos + 1)
    } else {
        0
    }
}

/// The value of the first `k` digits at `pos`, most significant first.
pub open spec fn digits_val(s: Seq<char>, pos: int, k: nat) -> int
    decreases k,
{
    if k == 0 {
        0
    } else {
        digits_val(s, pos, (k - 1) as nat) * 10 + digit_val(s[pos + k - 1])
    }
}

/// An unsigned decimal number: one or more digits, refused when the value
/// does not fit.
pub open spec fn spec_u64(s: Seq<char>, pos: int) -> Option<(nat, u64)> {
    let k = digit_run_len(s, pos);
    if k == 0 {
        None
    } else {
        let v = digits_val(s, pos, k);
        if v > u64::MAX {
            None
        } else {
            Some((k, v as u64))
        }
    }
}

/// An unsigned decimal number that must fit in 32 bits.
pub open spec fn spec_u32(s: Seq<char>, pos: int) -> Option<(nat, u32)> {
    let k = digit_run_len(s, pos);
    if k == 0 {
        None
    } else {
        let v = digits_val(s, pos, k);
        if v > u32::MAX {
            None
        } else {
            Some((k, v as u32))
        }
    }
}

/// A signed decimal number: an optional sign, then digits, refused when the
/// value does not fit in 64 bits.
pub open spec fn spec_i64(s: Seq<char>, pos: int) -> Option<(nat, i64)> {
    if 0 <= pos < s.len() && (s[pos] == '-' || s[pos] == '+') {
        let neg = s[pos] == '-';
        let k = digit_run_len(s, pos + 1);
        if k == 0 {
            None
        } else {
            let v = digits_val(s, pos + 1, k);
            if neg {
                if v > 0x8000_0000_0000_0000 {
                    None
                } else {
                    Some(((k + 1) as nat, (-v) as i64))
                }
            } else {
                if v > i64::MAX {
                    None
                } else {
                    Some(((k + 1) as nat, v as i64))
                }
            }
        }
    } else {
        let k = digit_run_len(s, pos);
        if k == 0 {
            None
        } else {
            let v = digits_val(s, pos, k);
            if v > i64::MAX {
                None
            } else {
                Some((k, v as i64))
            }
        }
    }
}

/// The characters a backslash may escape: the structural ones for the
/// current context.
pub open spec fn plain_escapable(c: char, in_list: bool) -> bool {
    c == '\\' || c == '{' || c == '}' || (in_list && c == ',')
}

/// A possibly-empty literal run: ordinary characters and escape sequences,
/// stopped by an unescaped structural character.  The run fails on a
/// backslash before a non-structural character or at the end of the input.
/// The returned text is unescaped.
pub open spec fn spec_plain(s: Seq<char>, pos: int, in_list: bool) -> Option<(nat, Seq<char>)>
    decreases s.len() - pos,
{
    if !(0 <= pos < s.len()) {
        Some((0, Seq::empty()))
    } else if s[pos] == '\\' {
        if pos + 1 < s.len() && plain_escapable(s[pos + 1], in_list) {
            match spec_plain(s, pos + 2, in_list) {
                Some((n, t)) => Some(((n + 2) as nat, seq![s[pos + 1]] + t)),
                None => None,
            }
        } else {
            None
        }
    } else if s[pos] == '{' || s[pos] == '}' || (in_list && s[pos] == ',') {
        Some((0, Seq::empty()))
    } else {
        match spec_plain(s, pos + 1, in_list) {
            Some((n, t)) => Some(((n + 1) as nat, seq![s[pos]] + t)),
            None => None,
        }
    }
}

/// One range endpoint character: any character outside `.{},`, or a
/// backslash followed by any character at all.
pub open spec fn spec_sequence_char(s: Seq<char>, pos: int) -> Option<(nat, char)> {
    if 0 <= pos < s.len() {
        let c = s[pos];
        if c == '.' || c == '{' || c == '}' || c == ',' {
            None
        } else if c == '\\' {
            if pos + 1 < s.len() {
                Some((2, s[pos + 1]))
            } else {
                None
            }
        } else {
            Some((1, c))
        }
    } else {
        None
    }
}

/// An explicit numeric step: `..` then an unsigned number, coerced up to
/// one when zero.
pub open spec fn spec_number_incr(s: Seq<char>, pos: int) -> Option<(nat, u64)> {
    if 0 <= pos && pos + 2 <= s.len() && s[pos] == '.' && s[pos + 1] == '.' {
        match spec_u64(s, pos + 2) {
            Some((n, v)) => Some(((n + 2) as nat, if v < 1 {
                1u64
            } else {
                v
            })),
            None => None,
        }
    } else {
        None
    }
}

/// An explicit character step: `..` then a 32-bit unsigned number, coerced
/// up to one when zero.
pub open spec fn spec_char_incr(s: Seq<char>, pos: int) -> Option<(nat, u32)> {
    if 0 <= pos && pos + 2 <= s.len() && s[pos] == '.' && s[pos + 1] == '.' {
        match spec_u32(s, pos + 2) {
            Some((n, v)) => Some(((n + 2) as nat, if v < 1 {
                1u32
            } else {
                v
            })),
            None => None,
        }
    } else {
        None
    }
}

/// A numeric range: `{`, an optional `=` asking for fixed width, a signed
/// start, `..`, a signed end, an optional `..step`, `}`.  The fixed width
/// is the longer of the two endpoint tokens as written.
pub open spec fn spec_number_sequence(s: Seq<char>, pos: int) -> Option<(nat, PartView)> {
    if 0 <= pos < s.len() && s[pos] == '{' {
        let eq = pos + 1 < s.len() && s[pos + 1] == '=';
        let p1 = if eq {
            pos + 2
        } else {
            pos + 1
        };
        match spec_i64(s, p1) {
            Some((n1, start)) => {
                let p2 = p1 + n1;
                if p2 + 2 <= s.len() && s[p2] == '.' && s[p2 + 1] == '.' {
                    match spec_i64(s, p2 + 2) {
                        Some((n2, end)) => {
                            let p3 = p2 + 2 + n2;
                            let stepped = spec_number_incr(s, p3);
                            let p4 = match stepped {
                                Some((n3, _)) => p3 + n3,
                                None => p3,
                            };
                            let incr = match stepped {
                                Some((_, v)) => v,
                                None => 1u64,
                            };
                            if p4 < s.len() && s[p4] == '}' {
                                Some(((p4 + 1 - pos) as nat, PartView::IntRange {
                                    width: if eq {
                                        Some((if n1 >= n2 {
                                            n1
                                        } else {
                                            n2
                                        }) as usize)
                                    } else {
                                        None
                                    },
                                    start,
                                    end,
                                    incr,
                                }))
                            } else {
                                None
                            }
                        },
                        None => None,
                    }
                } else {
                    None
                }
            },
            None => None,
        }
    } else {
        None
    }
}

/// A character range: `{`, an endpoint, `..`, an endpoint, an optional
/// `..step`, `}`.
pub open spec fn spec_char_sequence(s: Seq<char>, pos: int) -> Option<(nat, PartView)> {
    if 0 <= pos < s.len() && s[pos] == '{' {
        match spec_sequence_char(s, pos + 1) {
            Some((n1, cstart)) => {
                let p2 = pos + 1 + n1;
                if p2 + 2 <= s.len() && s[p2] == '.' && s[p2 + 1] == '.' {
                    match spec_sequence_char(s, p2 + 2) {
                        Some((n2, cend)) => {
                            let p3 = p2 + 2 + n2;
                            let stepped = spec_char_incr(s, p3);
                            let p4 = match stepped {
                                Some((n3, _)) => p3 + n3,
                                None => p3,
                            };
                            let incr = match stepped {
                                Some((_, v)) => v,
                                None => 1u32,
                            };
                            if p4 < s.len() && s[p4] == '}' {
                                Some(((p4 + 1 - pos) as nat, PartView::CharRange {
                                    start: cstart,
                                    end: cend,
                                    incr,
                                }))
                            } else {
                                None
                            }
                        },
                        None => None,
                    }
                } else {
                    None
                }
            },
            None => None,
        }
    } else {
        None
    }
}

/// A range of either kind: the numeric form is tried first, the character
/// form only where it fails.
pub open spec fn spec_seq_part(s: Seq<char>, pos: int) -> Option<(nat, PartView)> {
    match spec_number_sequence(s, pos) {
        Some(r) => Some(r),
        None => spec_char_sequence(s, pos),
    }
}

/// An alternatives list: `{`, members separated by commas (a member may be
/// empty), `}`.
pub open spec fn spec_list(s: Seq<char>, pos: int) -> Option<(nat, PartView)>
    decreases s.len() - pos, 0int,
{
    if 0 <= pos < s.len() && s[pos] == '{' {
        let (n, members) = spec_list_items(s, pos + 1);
        let p2 = pos + 1 + n;
        if p2 < s.len() && s[p2] == '}' {
            Some(((p2 + 1 - pos) as nat, PartView::List { members }))
        } else {
            None
        }
    } else {
        None
    }
}

/// One list member element: a range, a nested list, or a non-empty literal
/// that may not hold an unescaped comma.
pub open spec fn spec_list_element(s: Seq<char>, pos: int) -> Option<(nat, PartView)>
    decreases s.len() - pos, 1int,
{
    match spec_seq_part(s, pos) {
        Some(r) => Some(r),
        None => match spec_list(s, pos) {
            Some(r) => Some(r),
            None => match spec_plain(s, pos, true) {
                Some((n, t)) => if t.len() != 0 {
                    Some((n, PartView::Plain { text: t }))
                } else {
                    None
                },
                None => None,
            },
        },
    }
}

/// The elements after the first one of a list member.  An element always
/// consumes at least one character and never runs past the end; the guard
/// only restates that so the recursion visibly advances.
pub open spec fn spec_list_expr_rest(s: Seq<char>, pos: int) -> (nat, Seq<PartView>)
    decreases s.len() - pos, 2int,
{
    match spec_list_element(s, pos) {
        Some((n, p)) => if 1 <= n && pos + n <= s.len() {
            let (n2, more) = spec_list_expr_rest(s, pos + n);
            (((n + n2) as nat), seq![p] + more)
        } else {
            (0, Seq::empty())
        },
        None => (0, Seq::empty()),
    }
}

/// One non-empty list member: one or more elements, wrapped as a nested
/// pattern.
pub open spec fn spec_list_expression(s: Seq<char>, pos: int) -> Option<(nat, PartView)>
    decreases s.len() - pos, 3int,
{
    match spec_list_element(s, pos) {
        Some((n1, first)) => if 1 <= n1 && pos + n1 <= s.len() {
            let (n2, more) = spec_list_expr_rest(s, pos + n1);
            Some((((n1 + n2) as nat), PartView::Expr { parts: seq![first] + more }))
        } else {
            None
        },
        None => None,
    }
}

/// The comma-separated members of a list, each possibly empty.  There is
/// always at least one member: `{}` holds the single empty member.
pub open spec fn spec_list_items(s: Seq<char>, pos: int) -> (nat, Seq<PartView>)
    decreases s.len() - pos, 4int,
{
    let parsed = spec_list_expression(s, pos);
    let n1: int = match parsed {
        Some((n, _)) => n as int,
        None => 0,
    };
    let first = match parsed {
        Some((_, p)) => p,
        None => PartView::Plain { text: Seq::empty() },
    };
    let p1 = pos + n1;
    if 0 <= n1 && p1 < s.len() && s[p1] == ',' {
        let (n2, more) = spec_list_items(s, p1 + 1);
        (((n1 + 1 + n2) as nat), seq![first] + more)
    } else {
        (n1 as nat, seq![first])
    }
}

/// One top-level element: a range, a list, or a non-empty literal that may
/// hold unescaped commas.
pub open spec fn spec_top_element(s: Seq<char>, pos: int) -> Option<(nat, PartView)> {
    match spec_seq_part(s, pos) {
        Some(r) => Some(r),
        None => match spec_list(s, pos) {
            Some(r) => Some(r),
            None => match spec_plain(s, pos, false) {
                Some((n, t)) => if t.len() != 0 {
                    Some((n, PartView::Plain { text: t }))
                } else {
                    None
                },
                None => None,
            },
        },
    }
}

/// The run of top-level parts, stopping at the first position where no
/// element can start.
pub open spec fn spec_top_parts(s: Seq<char>, pos: int) -> (nat, Seq<PartView>)
    decreases s.len() - pos,
{
    match spec_top_element(s, pos) {
        Some((n, p)) => if 1 <= n && pos + n <= s.len() {
            let (n2, more) = spec_top_parts(s, pos + n);
            (((n + n2) as nat), seq![p] + more)
        } else {
            (0, Seq::empty())
        },
        None => (0, Seq::empty()),
    }
}

/// Where the top-level run stops; parsing succeeds exactly when this is
/// the input's length.
pub open spec fn parse_stop(s: Seq<char>) -> int {
    spec_top_parts(s, 0).0 as int
}

/// The parse of a whole input: its parts where the grammar matches the
/// entire text, nothing otherwise.
pub open spec fn parse_result(s: Seq<char>) -> Option<Seq<PartView>> {
    let (n, parts) = spec_top_parts(s, 0);
    if n == s.len() {
        Some(parts)
    } else {
        None
    }
}

pub(crate) proof fn lemma_digit_run(s: Seq<char>, pos: int, i: int)
    requires
        0 <= pos <= i <= s.len(),
        forall|j: int| pos <= j < i ==> is_digit_char(#[trigger] s[j]),
        i == s.len() || !is_digit_char(s[i]),
    ensures
        digit_run_len(s, pos) == i - pos,
    decreases i - pos,
{
    if pos < i {
        lemma_digit_run(s, pos + 1, i);
    }
}

proof fn lemma_digit_run_digits(s: Seq<char>, pos: int)
    ensures
        forall|j: int|
            0 <= j < digit_run_len(s, pos) ==> is_digit_char(#[trigger] s[pos + j]),
    decreases s.len() - pos,
{
    if 0 <= pos < s.len() && is_digit_char(s[pos]) {
        lemma_digit_run_digits(s, pos + 1);
        assert forall|j: int| 0 <= j < digit_run_len(s, pos) implies is_digit_char(
            #[trigger] s[pos + j],
        ) by {
            if j > 0 {
                assert(is_digit_char(s[(pos + 1) + (j - 1)]));
            }
        }
    }
}

proof fn lemma_digits_val_nonneg(s: Seq<char>, pos: int, k: nat)
    requires
        forall|j: int| 0 <= j < k ==> is_digit_char(#[trigger] s[pos + j]),
    ensures
        digits_val(s, pos, k) >= 0,
    decreases k,
{
    if k > 0 {
        lemma_digits_val_nonneg(s, pos, (k - 1) as nat);
    }
}

proof fn lemma_digits_val_mono(s: Seq<char>, pos: int, k1: nat, k2: nat)
    requires
        k1 <= k2,
        forall|j: int| 0 <= j < k2 ==> is_digit_char(#[trigger] s[pos + j]),
    ensures
        digits_val(s, pos, k1) <= digits_val(s, pos, k2),
    decreases k2,
{
    if k1 < k2 {
        lemma_digits_val_mono(s, pos, k1, (k2 - 1) as nat);
        lemma_digits_val_nonneg(s, pos, (k2 - 1) as nat);
    }
}

/// Whether `c` is a decimal digit.
fn is_digit(c: char) -> (r: bool)
    ensures
        r == is_digit_char(c),
{
    let u = c as u32;
    48 <= u && u <= 57
}

/// The characters of `input`, in order.
fn str_chars(input: &str) -> (r: Vec<char>)
    ensures
        r@ == input@,
{
    let n = input.unicode_len();
    let mut r: Vec<char> = Vec::new();
    let mut i: usize = 0;
    while i < n
        invariant
            n == input@.len(),
            i <= n,
            r@ == input@.subrange(0, i as int),
        decreases n - i,
    {
        r.push(input.get_char(i));
        i = i + 1;
        proof {
            assert(r@ =~= input@.subrange(0, i as int));
        }
    }
    proof {
        assert(input@.subrange(0, input@.len() as int) =~= input@);
    }
    r
}

/// An unsigned decimal number at `pos`: one or more digits, refused when
/// the value does not fit in 64 bits.
fn parse_u64(s: &Vec<char>, pos: usize) -> (r: Option<(usize, u64)>)
    requires
        pos <= s@.len(),
    ensures
        (match r {
            Some((np, v)) => spec_u64(s@, pos as int) == Some((((np - pos) as nat), v)) && pos < np
                <= s@.len(),
            None => spec_u64(s@, pos as int) is None,
        }),
{
    let mut i: usize = pos;
    let mut acc: u64 = 0;
    let mut ok = true;
    while i < s.len() && is_digit(s[i])
        invariant
            pos <= i <= s@.len(),
            forall|j: int| pos <= j < i ==> is_digit_char(#[trigger] s@[j]),
            ok ==> acc == digits_val(s@, pos as int, (i - pos) as nat),
            !ok ==> digits_val(s@, pos as int, (i - pos) as nat) > u64::MAX,
        decreases s@.len() - i,
    {
        let d: u64 = ((s[i] as u32) - 48) as u64;
        let ghost k0 = (i - pos) as nat;
        proof {
            assert(digits_val(s@, pos as int, (k0 + 1) as nat) == digits_val(
                s@,
                pos as int,
                k0,
            ) * 10 + digit_val(s@[pos + k0]));
        }
        if ok {
            match acc.checked_mul(10) {
                Some(m) => match m.checked_add(d) {
                    Some(a) => {
                        acc = a;
                    },
                    None => {
                        ok = false;
                        proof {
                            assert(forall|j: int|
                                0 <= j < k0 + 1 ==> is_digit_char(#[trigger] s@[pos + j]));
                            lemma_digits_val_nonneg(s@, pos as int, k0);
                        }
                    },
                },
                None => {
                    ok = false;
                    proof {
                        assert(forall|j: int|
                            0 <= j < k0 + 1 ==> is_digit_char(#[trigger] s@[pos + j]));
                        lemma_digits_val_nonneg(s@, pos as int, k0);
                    }
                },
            }
        } else {
            proof {
                assert(forall|j: int|
                    0 <= j < k0 + 1 ==> is_digit_char(#[trigger] s@[pos + j]));
                lemma_digits_val_nonneg(s@, pos as int, k0);
                lemma_digits_val_mono(s@, pos as int, k0, (k0 + 1) as nat);
            }
        }
        i = i + 1;
    }
    proof {
        lemma_digit_run(s@, pos as int, i as int);
    }
    if i == pos {
        None
    } else if !ok {
        None
    } else {
        Some((i, acc))
    }
}

/// An unsigned decimal number that must also fit in 32 bits.
fn parse_u32(s: &Vec<char>, pos: usize) -> (r: Option<(usize, u32)>)
    requires
        pos <= s@.len(),
    ensures
        (match r {
            Some((np, v)) => spec_u32(s@, pos as int) == Some((((np - pos) as nat), v)) && pos < np
                <= s@.len(),
            None => spec_u32(s@, pos as int) is None,
        }),
{
    match parse_u64(s, pos) {
        Some((np, v)) => {
            proof {
                lemma_digit_run_digits(s@, pos as int);
                lemma_digits_val_nonneg(s@, pos as int, digit_run_len(s@, pos as int));
                assert(digits_val(s@, pos as int, digit_run_len(s@, pos as int)) == v as int);
            }
            if v > 0xFFFF_FFFF {
                None
            } else {
                Some((np, v as u32))
            }
        },
        None => None,
    }
}

/// A signed decimal number at `pos`: an optional sign, then digits,
/// refused when the value does not fit in 64 bits.
fn parse_i64(s: &Vec<char>, pos: usize) -> (r: Option<(usize, i64)>)
    requires
        pos <= s@.len(),
    ensures
        (match r {
            Some((np, v)) => spec_i64(s@, pos as int) == Some((((np - pos) as nat), v)) && pos < np
                <= s@.len(),
            None => spec_i64(s@, pos as int) is None,
        }),
{
    if pos < s.len() && (s[pos] == '-' || s[pos] == '+') {
        let neg = s[pos] == '-';
        match parse_u64(s, pos + 1) {
            Some((np, v)) => {
                proof {
                    lemma_digit_run_digits(s@, pos as int + 1);
                    lemma_digits_val_nonneg(s@, pos as int + 1, digit_run_len(s@, pos as int + 1));
                    assert(digits_val(s@, pos as int + 1, digit_run_len(s@, pos as int + 1))
                        == v as int);
                }
                if neg {
                    if v > 0x8000_0000_0000_0000 {
                        None
                    } else if v == 0x8000_0000_0000_0000 {
                        Some((np, i64::MIN))
                    } else {
                        Some((np, -(v as i64)))
                    }
                } else {
                    if v > 0x7FFF_FFFF_FFFF_FFFF {
                        None
                    } else {
                        Some((np, v as i64))
                    }
                }
            },
            None => None,
        }
    } else {
        match parse_u64(s, pos) {
            Some((np, v)) => {
                proof {
                    lemma_digit_run_digits(s@, pos as int);
                    lemma_digits_val_nonneg(s@, pos as int, digit_run_len(s@, pos as int));
                    assert(digits_val(s@, pos as int, digit_run_len(s@, pos as int)) == v as int);
                }
                if v > 0x7FFF_FFFF_FFFF_FFFF {
                    None
                } else {
                    Some((np, v as i64))
                }
            },
            None => None,
        }
    }
}

/// Whether a backslash may escape `c` in the current context.
fn escapable(c: char, in_list: bool) -> (r: bool)
    ensures
        r == plain_escapable(c, in_list),
{
    c == '\\' || c == '{' || c == '}' || (in_list && c == ',')
}

/// A possibly-empty literal run starting at `pos`, with its escapes
/// removed.  Fails on a backslash before a non-structural character or at
/// the end of the input.
fn plain_str(s: &Vec<char>, pos: usize, in_list: bool) -> (r: Option<(usize, String)>)
    requires
        pos <= s@.len(),
    ensures
        (match r {
            Some((np, t)) => spec_plain(s@, pos as int, in_list) == Some(
                (((np - pos) as nat), t@),
            ) && pos <= np <= s@.len(),
            None => spec_plain(s@, pos as int, in_list) is None,
        }),
{
    let mut cur: usize = pos;
    let mut out = String::new();
    let mut failed = false;
    let mut stopped = false;
    while !stopped && !failed
        invariant
            pos <= cur <= s@.len(),
            (!stopped && !failed) ==> (match spec_plain(s@, cur as int, in_list) {
                Some((n, t)) => spec_plain(s@, pos as int, in_list) == Some(
                    (((cur - pos) + n) as nat, out@ + t),
                ),
                None => spec_plain(s@, pos as int, in_list) is None,
            }),
            stopped ==> spec_plain(s@, pos as int, in_list) == Some((((cur - pos) as nat), out@)),
            failed ==> spec_plain(s@, pos as int, in_list) is None,
        decreases s@.len() - cur + (if stopped || failed {
            0int
        } else {
            1int
        }),
    {
        if cur == s.len() {
            stopped = true;
            proof {
                assert(out@ + Seq::<char>::empty() =~= out@);
            }
        } else {
            let c = s[cur];
            if c == '\\' {
                if cur + 1 < s.len() && escapable(s[cur + 1], in_list) {
                    let e = s[cur + 1];
                    let ghost out0 = out@;
                    let ghost cur0 = cur as int;
                    render::push_char(&mut out, e);
                    cur = cur + 2;
                    proof {
                        let next = spec_plain(s@, cur as int, in_list);
                        match next {
                            Some((n, t)) => {
                                assert(spec_plain(s@, cur0, in_list) == Some(
                                    ((n + 2) as nat, seq![e] + t),
                                ));
                                assert(out@ + t =~= out0 + (seq![e] + t));
                            },
                            None => {
                                assert(spec_plain(s@, cur0, in_list) is None);
                            },
                        }
                    }
                } else {
                    failed = true;
                }
            } else if c == '{' || c == '}' || (in_list && c == ',') {
                stopped = true;
            } else {
                let ghost out0 = out@;
                let ghost cur0 = cur as int;
                render::push_char(&mut out, c);
                cur = cur + 1;
                proof {
                    let next = spec_plain(s@, cur as int, in_list);
                    match next {
                        Some((n, t)) => {
                            assert(spec_plain(s@, cur0, in_list) == Some(
                                ((n + 1) as nat, seq![c] + t),
                            ));
                            assert(out@ + t =~= out0 + (seq![c] + t));
                        },
                        None => {
                            assert(spec_plain(s@, cur0, in_list) is None);
                        },
                    }
                }
            }
        }
    }
    if failed {
        None
    } else {
        Some((cur, out))
    }
}

/// One range endpoint character.
fn sequence_char(s: &Vec<char>, pos: usize) -> (r: Option<(usize, char)>)
    requires
        pos <= s@.len(),
    ensures
        (match r {
            Some((np, c)) => spec_sequence_char(s@, pos as int) == Some((((np - pos) as nat), c))
                && pos < np <= s@.len(),
            None => spec_sequence_char(s@, pos as int) is None,
        }),
{
    if pos < s.len() {
        let c = s[pos];
        if c == '.' || c == '{' || c == '}' || c == ',' {
            None
        } else if c == '\\' {
            if pos + 1 < s.len() {
                Some((pos + 2, s[pos + 1]))
            } else {
                None
            }
        } else {
            Some((pos + 1, c))
        }
    } else {
        None
    }
}

/// An explicit numeric step.
fn number_sequence_incr(s: &Vec<char>, pos: usize) -> (r: Option<(usize, u64)>)
    requires
        pos <= s@.len(),
    ensures
        (match r {
            Some((np, v)) => spec_number_incr(s@, pos as int) == Some((((np - pos) as nat), v))
                && pos < np <= s@.len() && v >= 1,
            None => spec_number_incr(s@, pos as int) is None,
        }),
{
    if pos < s.len() && s[pos] == '.' && pos + 1 < s.len() && s[pos + 1] == '.' {
        match parse_u64(s, pos + 2) {
            Some((np, v)) => Some((np, if v < 1 {
                1
            } else {
                v
            })),
            None => None,
        }
    } else {
        None
    }
}

/// An explicit character step.
fn char_sequence_incr(s: &Vec<char>, pos: usize) -> (r: Option<(usize, u32)>)
    requires
        pos <= s@.len(),
    ensures
        (match r {
            Some((np, v)) => spec_char_incr(s@, pos as int) == Some((((np - pos) as nat), v)) && pos
                < np <= s@.len() && v >= 1,
            None => spec_char_incr(s@, pos as int) is None,
        }),
{
    if pos < s.len() && s[pos] == '.' && pos + 1 < s.len() && s[pos + 1] == '.' {
        match parse_u32(s, pos + 2) {
            Some((np, v)) => Some((np, if v < 1 {
                1
            } else {
                v
            })),
            None => None,
        }
    } else {
        None
    }
}

/// A numeric range part.
fn number_sequence(s: &Vec<char>, pos: usize) -> (r: Option<(usize, Part)>)
    requires
        pos <= s@.len(),
    ensures
        (match r {
            Some((np, part)) => spec_number_sequence(s@, pos as int) == Some(
                (((np - pos) as nat), part@),
            ) && pos < np <= s@.len() && crate::model::wf_part(part@),
            None => spec_number_sequence(s@, pos as int) is None,
        }),
{
    if pos < s.len() && s[pos] == '{' {
        let eq = pos + 1 < s.len() && s[pos + 1] == '=';
        let p1 = if eq {
            pos + 2
        } else {
            pos + 1
        };
        match parse_i64(s, p1) {
            Some((np1, start)) => {
                let n1 = np1 - p1;
                if np1 < s.len() && s[np1] == '.' && np1 + 1 < s.len() && s[np1 + 1] == '.' {
                    match parse_i64(s, np1 + 2) {
                        Some((np2, end)) => {
                            let n2 = np2 - (np1 + 2);
                            let stepped = number_sequence_incr(s, np2);
                            let p4 = match stepped {
                                Some((np3, _)) => np3,
                                None => np2,
                            };
                            let incr = match stepped {
                                Some((_, v)) => v,
                                None => 1u64,
                            };
                            if p4 < s.len() && s[p4] == '}' {
                                let width = if eq {
                                    Some(
                                        if n1 >= n2 {
                                            n1
                                        } else {
                                            n2
                                        },
                                    )
                                } else {
                                    None
                                };
                                let part = Part::Sequence(
                                    Sequence::Int {
                                        width,
                                        sequence: sequence::Sequence { start, end, incr },
                                    },
                                );
                                Some((p4 + 1, part))
                            } else {
                                None
                            }
                        },
                        None => None,
                    }
                } else {
                    None
                }
            },
            None => None,
        }
    } else {
        None
    }
}

/// A character range part.
fn char_sequence(s: &Vec<char>, pos: usize) -> (r: Option<(usize, Part)>)
    requires
        pos <= s@.len(),
    ensures
        (match r {
            Some((np, part)) => spec_char_sequence(s@, pos as int) == Some(
                (((np - pos) as nat), part@),
            ) && pos < np <= s@.len() && crate::model::wf_part(part@),
            None => spec_char_sequence(s@, pos as int) is None,
        }),
{
    if pos < s.len() && s[pos] == '{' {
        match sequence_char(s, pos + 1) {
            Some((np1, cstart)) => {
                if np1 < s.len() && s[np1] == '.' && np1 + 1 < s.len() && s[np1 + 1] == '.' {
                    match sequence_char(s, np1 + 2) {
                        Some((np2, cend)) => {
                            let stepped = char_sequence_incr(s, np2);
                            let p4 = match stepped {
                                Some((np3, _)) => np3,
                                None => np2,
                            };
                            let incr = match stepped {
                                Some((_, v)) => v,
                                None => 1u32,
                            };
                            if p4 < s.len() && s[p4] == '}' {
                                let part = Part::Sequence(
                                    Sequence::Char(
                                        sequence::Sequence { start: cstart, end: cend, incr },
                                    ),
                                );
                                Some((p4 + 1, part))
                            } else {
                                None
                            }
                        },
                        None => None,
                    }
                } else {
                    None
                }
            },
            None => None,
        }
    } else {
        None
    }
}

/// A range of either kind, the numeric form tried first.
fn sequence_part(s: &Vec<char>, pos: usize) -> (r: Option<(usize, Part)>)
    requires
        pos <= s@.len(),
    ensures
        (match r {
            Some((np, part)) => spec_seq_part(s@, pos as int) == Some(
                (((np - pos) as nat), part@),
            ) && pos < np <= s@.len() && crate::model::wf_part(part@),
            None => spec_seq_part(s@, pos as int) is None,
        }),
{
    match number_sequence(s, pos) {
        Some(r) => Some(r),
        None => char_sequence(s, pos),
    }
}

/// An alternatives list part.
fn list(s: &Vec<char>, pos: usize) -> (r: Option<(usize, Part)>)
    requires
        pos <= s@.len(),
    ensures
        (match r {
            Some((np, part)) => spec_list(s@, pos as int) == Some((((np - pos) as nat), part@))
                && pos < np <= s@.len() && crate::model::wf_part(part@),
            None => spec_list(s@, pos as int) is None,
        }),
    decreases s@.len() - pos, 0int,
{
    if pos < s.len() && s[pos] == '{' {
        let (np_items, members) = list_items(s, pos + 1);
        if np_items < s.len() && s[np_items] == '}' {
            Some((np_items + 1, Part::List(List(members))))
        } else {
            None
        }
    } else {
        None
    }
}

/// One list member element: a range, a nested list, or a non-empty
/// comma-free literal.
fn list_element(s: &Vec<char>, pos: usize) -> (r: Option<(usize, Part)>)
    requires
        pos <= s@.len(),
    ensures
        (match r {
            Some((np, part)) => spec_list_element(s@, pos as int) == Some(
                (((np - pos) as nat), part@),
            ) && pos < np <= s@.len() && crate::model::wf_part(part@),
            None => spec_list_element(s@, pos as int) is None,
        }),
    decreases s@.len() - pos, 1int,
{
    match sequence_part(s, pos) {
        Some(r) => Some(r),
        None => match list(s, pos) {
            Some(r) => Some(r),
            None => match plain_str(s, pos, true) {
                Some((np, t)) => {
                    if !t.as_str().is_empty() {
                        proof {
                            assert(np > pos);
                        }
                        Some((np, Part::Plain(t)))
                    } else {
                        None
                    }
                },
                None => None,
            },
        },
    }
}

/// The elements after the first one of a list member.
fn list_expr_rest(s: &Vec<char>, pos: usize) -> (r: (usize, Vec<Part>))
    requires
        pos <= s@.len(),
    ensures
        ({
            let (n, views) = spec_list_expr_rest(s@, pos as int);
            r.0 == pos + n && r.0 <= s@.len() && crate::parts_view(r.1@) == views
                && crate::model::wf_parts(views)
        }),
    decreases s@.len() - pos, 2int,
{
    match list_element(s, pos) {
        Some((np, part)) => {
            let (np2, mut more) = list_expr_rest(s, np);
            let ghost views0 = crate::parts_view(more@);
            let ghost seq0 = more@;
            more.insert(0, part);
            proof {
                assert(more@ =~= seq![part] + seq0);
                assert(more@.subrange(1, more@.len() as int) =~= seq0);
                lemma_cons_view(part, more@);
                let w = seq![part@] + views0;
                assert(crate::parts_view(more@) == w);
                assert(w.subrange(1, w.len() as int) =~= views0);
                assert(crate::model::wf_parts(w));
            }
            (np2, more)
        },
        None => {
            let r: Vec<Part> = Vec::new();
            proof {
                assert(crate::parts_view(r@) =~= Seq::<PartView>::empty());
            }
            (pos, r)
        },
    }
}

/// One non-empty list member, wrapped as a nested pattern.
fn list_expression(s: &Vec<char>, pos: usize) -> (r: Option<(usize, Part)>)
    requires
        pos <= s@.len(),
    ensures
        (match r {
            Some((np, part)) => spec_list_expression(s@, pos as int) == Some(
                (((np - pos) as nat), part@),
            ) && pos < np <= s@.len() && crate::model::wf_part(part@),
            None => spec_list_expression(s@, pos as int) is None,
        }),
    decreases s@.len() - pos, 3int,
{
    match list_element(s, pos) {
        Some((np1, first)) => {
            let (np2, mut more) = list_expr_rest(s, np1);
            let ghost views0 = crate::parts_view(more@);
            let ghost seq0 = more@;
            more.insert(0, first);
            proof {
                assert(more@ =~= seq![first] + seq0);
                assert(more@.subrange(1, more@.len() as int) =~= seq0);
                lemma_cons_view(first, more@);
                let w = seq![first@] + views0;
                assert(crate::parts_view(more@) == w);
                assert(w.subrange(1, w.len() as int) =~= views0);
                assert(crate::model::wf_parts(w));
            }
            Some((np2, Part::Expression(Expression(more))))
        },
        None => None,
    }
}

/// The comma-separated members of a list; a member may be empty, and `{}`
/// holds the single empty member.
fn list_items(s: &Vec<char>, pos: usize) -> (r: (usize, Vec<Part>))
    requires
        pos <= s@.len(),
    ensures
        ({
            let (n, views) = spec_list_items(s@, pos as int);
            r.0 == pos + n && r.0 <= s@.len() && crate::parts_view(r.1@) == views
                && crate::model::wf_parts(views)
        }),
    decreases s@.len() - pos, 4int,
{
    let parsed = list_expression(s, pos);
    let (np1, first) = match parsed {
        Some((np, p)) => (np, p),
        None => (pos, Part::Plain(String::new())),
    };
    proof {
        assert(first@ == (match spec_list_expression(s@, pos as int) {
            Some((_, p)) => p,
            None => PartView::Plain { text: Seq::empty() },
        }));
        assert(crate::model::wf_part(first@));
    }
    if np1 < s.len() && s[np1] == ',' {
        let (np2, mut more) = list_items(s, np1 + 1);
        let ghost views0 = crate::parts_view(more@);
        let ghost seq0 = more@;
        more.insert(0, first);
        proof {
            assert(more@ =~= seq![first] + seq0);
            assert(more@.subrange(1, more@.len() as int) =~= seq0);
            lemma_cons_view(first, more@);
            let w = seq![first@] + views0;
            assert(crate::parts_view(more@) == w);
            assert(w.subrange(1, w.len() as int) =~= views0);
            assert(crate::model::wf_parts(w));
        }
        (np2, more)
    } else {
        let mut v: Vec<Part> = Vec::new();
        v.push(first);
        proof {
            assert(v@ =~= seq![first]);
            assert(v@.subrange(1, v@.len() as int) =~= Seq::<Part>::empty());
            lemma_cons_view(first, v@);
            assert(crate::parts_view(Seq::<Part>::empty()) =~= Seq::<PartView>::empty());
            assert(crate::parts_view(v@) =~= seq![first@]);
            assert(seq![first@].subrange(1, 1) =~= Seq::<PartView>::empty());
            assert(crate::model::wf_parts(Seq::<PartView>::empty()));
            assert(crate::model::wf_parts(seq![first@]));
        }
        (np1, v)
    }
}

/// One top-level element: a range, a list, or a non-empty literal that may
/// hold unescaped commas.
fn top_element(s: &Vec<char>, pos: usize) -> (r: Option<(usize, Part)>)
    requires
        pos <= s@.len(),
    ensures
        (match r {
            Some((np, part)) => spec_top_element(s@, pos as int) == Some(
                (((np - pos) as nat), part@),
            ) && pos < np <= s@.len() && crate::model::wf_part(part@),
            None => spec_top_element(s@, pos as int) is None,
        }),
{
    match sequence_part(s, pos) {
        Some(r) => Some(r),
        None => match list(s, pos) {
            Some(r) => Some(r),
            None => match plain_str(s, pos, false) {
                Some((np, t)) => {
                    if !t.as_str().is_empty() {
                        proof {
                            assert(np > pos);
                        }
                        Some((np, Part::Plain(t)))
                    } else {
                        None
                    }
                },
                None => None,
            },
        },
    }
}

/// The run of top-level parts, stopping where no element can start.
fn top_parts(s: &Vec<char>, pos: usize) -> (r: (usize, Vec<Part>))
    requires
        pos <= s@.len(),
    ensures
        ({
            let (n, views) = spec_top_parts(s@, pos as int);
            r.0 == pos + n && r.0 <= s@.len() && crate::parts_view(r.1@) == views
                && crate::model::wf_parts(views)
        }),
    decreases s@.len() - pos,
{
    match top_element(s, pos) {
        Some((np, part)) => {
            let (np2, mut more) = top_parts(s, np);
            let ghost views0 = crate::parts_view(more@);
            let ghost seq0 = more@;
            more.insert(0, part);
            proof {
                assert(more@ =~= seq![part] + seq0);
                assert(more@.subrange(1, more@.len() as int) =~= seq0);
                lemma_cons_view(part, more@);
                let w = seq![part@] + views0;
                assert(crate::parts_view(more@) == w);
                assert(w.subrange(1, w.len() as int) =~= views0);
                assert(crate::model::wf_parts(w));
            }
            (np2, more)
        },
        None => {
            let r: Vec<Part> = Vec::new();
            proof {
                assert(crate::parts_view(r@) =~= Seq::<PartView>::empty());
            }
            (pos, r)
        },
    }
}

/// After inserting `p` at the front, the run of views is `p`'s view
/// followed by the previous views.
proof fn lemma_cons_view(p: Part, w: Seq<Part>)
    requires
        w.len() >= 1,
        w[0] == p,
    ensures
        crate::parts_view(w) == seq![crate::part_view(p)] + crate::parts_view(
            w.subrange(1, w.len() as int),
        ),
{
}

/// Parses a whole brace pattern: the expression exactly when the grammar
/// matches the entire input, otherwise the character position where
/// parsing stopped.
pub fn expression(input: &str) -> (r: Result<Expression, crate::ParseError>)
    ensures
        (match r {
            Ok(e) => parse_result(input@) == Some(e@) && crate::model::wf_parts(e@),
            Err(pe) => parse_result(input@) is None && pe.offset as int == parse_stop(input@)
                && pe.context@ == input@.subrange(parse_stop(input@), input@.len() as int),
        }),
{
    let cs = str_chars(input);
    let (np, parts) = top_parts(&cs, 0);
    if np == cs.len() {
        Ok(Expression(parts))
    } else {
        let mut context = String::new();
        let mut i: usize = np;
        while i < cs.len()
            invariant
                np <= i <= cs@.len(),
                context@ == cs@.subrange(np as int, i as int),
            decreases cs@.len() - i,
        {
            render::push_char(&mut context, cs[i]);
            i = i + 1;
            proof {
                assert(context@ =~= cs@.subrange(np as int, i as int));
            }
        }
        Err(crate::ParseError { offset: np, context })
    }
}

} // verus!
