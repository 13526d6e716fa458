//! The mathematical model: the shape of a parsed pattern, the items each
//! part of it contributes, the cartesian product that combines sibling
//! parts, and the canonical rendering of a pattern back to text.
use vstd::prelude::*;

use crate::CharTryFromError;
use crate::sequence::is_unicode_scalar;
use crate::sequence::walk;

verus! {

/// The parsed form of one position in a pattern: literal text, a brace list
/// of alternatives, an integer or character range, or a nested pattern (used
/// for list members that mix several parts).
pub enum PartView {
    Plain { text: Seq<char> },
    List { members: Seq<PartView> },
    IntRange { width: Option<usize>, start: i64, end: i64, incr: u64 },
    CharRange { start: char, end: char, incr: u32 },
    Expr { parts: Seq<PartView> },
}

/// One produced item: a string, or a failed character conversion.
pub type ItemModel = Result<Seq<char>, CharTryFromError>;

/// Concatenation of two items; an error on either side poisons the result,
/// the earlier side first.
pub open spec fn combine(a: ItemModel, b: ItemModel) -> ItemModel {
    match a {
        Err(e) => Err(e),
        Ok(s) => match b {
            Err(e) => Err(e),
            Ok(t) => Ok(s + t),
        },
    }
}

/// One item combined with every item of `items`, in their order.
pub open spec fn row(x: ItemModel, items: Seq<ItemModel>) -> Seq<ItemModel>
    decreases items.len(),
{
    if items.len() == 0 {
        Seq::empty()
    } else {
        seq![combine(x, items[0])] + row(x, items.subrange(1, items.len() as int))
    }
}

/// The product of two item sequences in odometer order: the left side varies
/// slowest, the right side fastest.
pub open spec fn cross(a: Seq<ItemModel>, b: Seq<ItemModel>) -> Seq<ItemModel>
    decreases a.len(),
{
    if a.len() == 0 {
        Seq::empty()
    } else {
        row(a[0], b) + cross(a.subrange(1, a.len() as int), b)
    }
}

/// The decimal digit character for `d`.
pub open spec fn digit_char(d: int) -> char {
    if d == 0 {
        '0'
    } else if d == 1 {
        '1'
    } else if d == 2 {
        '2'
    } else if d == 3 {
        '3'
    } else if d == 4 {
        '4'
    } else if d == 5 {
        '5'
    } else if d == 6 {
        '6'
    } else if d == 7 {
        '7'
    } else if d == 8 {
        '8'
    } else {
        '9'
    }
}

/// The decimal digits of `n`, most significant first, no sign and no
/// leading zero except for zero itself.
pub open spec fn dec_digits(n: nat) -> Seq<char>
    decreases n,
{
    if n < 10 {
        seq![digit_char(n as int)]
    } else {
        dec_digits(n / 10) + seq![digit_char((n % 10) as int)]
    }
}

/// The decimal rendering of `v`, with a leading minus sign when negative.
pub open spec fn dec_str(v: int) -> Seq<char> {
    if v < 0 {
        seq!['-'] + dec_digits((-v) as nat)
    } else {
        dec_digits(v as nat)
    }
}

/// `n` zero characters (none when `n` is negative).
pub open spec fn zeros(n: int) -> Seq<char> {
    Seq::new(if n < 0 { 0 } else { n as nat }, |i: int| '0')
}

/// `v` rendered zero-padded to `w` characters, the sign kept as the leading
/// character when negative; never shorter than the plain rendering.
pub open spec fn pad_int(v: int, w: int) -> Seq<char> {
    if v < 0 {
        seq!['-'] + zeros(w - 1 - dec_digits((-v) as nat).len()) + dec_digits((-v) as nat)
    } else {
        zeros(w - dec_digits(v as nat).len()) + dec_digits(v as nat)
    }
}

/// A numeric range value rendered as text, fixed-width when requested.
pub open spec fn render_int(v: int, width: Option<usize>) -> Seq<char> {
    match width {
        None => dec_str(v),
        Some(w) => pad_int(v, w as int),
    }
}

/// The items an integer range contributes: each visited value rendered.
pub open spec fn int_range_items(width: Option<usize>, start: i64, end: i64, incr: u64) -> Seq<
    ItemModel,
> {
    walk(start as int, end as int, incr as int).map_values(
        |v: int| Ok::<Seq<char>, CharTryFromError>(render_int(v, width)),
    )
}

/// The items a character range contributes: each visited code point as a
/// one-character string, or an error where it is no Unicode scalar value.
pub open spec fn char_range_items(start: char, end: char, incr: u32) -> Seq<ItemModel> {
    walk((start as u32) as int, (end as u32) as int, incr as int).map_values(
        |v: int|
            if is_unicode_scalar(v) {
                Ok::<Seq<char>, CharTryFromError>(seq![v as char])
            } else {
                Err::<Seq<char>, CharTryFromError>(CharTryFromError)
            },
    )
}

/// The ordered item sequence one part contributes to its position.
pub open spec fn items_of(p: PartView) -> Seq<ItemModel>
    decreases p,
{
    match p {
        PartView::Plain { text } => seq![Ok::<Seq<char>, CharTryFromError>(text)],
        PartView::List { members } => list_items(members),
        PartView::IntRange { width, start, end, incr } => int_range_items(width, start, end, incr),
        PartView::CharRange { start, end, incr } => char_range_items(start, end, incr),
        PartView::Expr { parts } => expr_items(parts),
    }
}

/// A list's contribution: its members' item sequences concatenated in
/// member order — a sum of alternatives, never a product.
pub open spec fn list_items(members: Seq<PartView>) -> Seq<ItemModel>
    decreases members,
{
    if members.len() == 0 {
        Seq::empty()
    } else {
        items_of(members[0]) + list_items(members.subrange(1, members.len() as int))
    }
}

/// A pattern's expansion: the cartesian product of its parts' items in
/// odometer order, the first part varying slowest.  The empty pattern
/// yields exactly one item, the empty string.
pub open spec fn expr_items(parts: Seq<PartView>) -> Seq<ItemModel>
    decreases parts,
{
    if parts.len() == 0 {
        seq![Ok::<Seq<char>, CharTryFromError>(Seq::empty())]
    } else {
        cross(items_of(parts[0]), expr_items(parts.subrange(1, parts.len() as int)))
    }
}

/// A part is well formed when every range in it steps by at least one.
/// The parser always coerces a step below one up to one.
pub open spec fn wf_part(p: PartView) -> bool
    decreases p,
{
    match p {
        PartView::Plain { .. } => true,
        PartView::List { members } => wf_parts(members),
        PartView::IntRange { incr, .. } => incr >= 1,
        PartView::CharRange { incr, .. } => incr >= 1,
        PartView::Expr { parts } => wf_parts(parts),
    }
}

/// Every part of the run is well formed.
pub open spec fn wf_parts(ps: Seq<PartView>) -> bool
    decreases ps,
{
    if ps.len() == 0 {
        true
    } else {
        wf_part(ps[0]) && wf_parts(ps.subrange(1, ps.len() as int))
    }
}

pub proof fn lemma_wf_parts_index(ps: Seq<PartView>)
    ensures
        wf_parts(ps) <==> (forall|i: int| 0 <= i < ps.len() ==> wf_part(#[trigger] ps[i])),
    decreases ps,
{
    if ps.len() > 0 {
        let rest = ps.subrange(1, ps.len() as int);
        lemma_wf_parts_index(rest);
        assert forall|j: int| 0 <= j < rest.len() implies #[trigger] rest[j] == ps[j + 1] by {}
        assert forall|i: int| 1 <= i < ps.len() implies #[trigger] ps[i] == rest[i - 1] by {}
    }
}

/// Combining with every item of a one-longer prefix appends one more
/// combined item.
pub proof fn lemma_row_take(x: ItemModel, t: Seq<ItemModel>, j: int)
    requires
        0 <= j < t.len(),
    ensures
        row(x, t.subrange(0, j + 1)) == row(x, t.subrange(0, j)) + seq![combine(x, t[j])],
    decreases j,
{
    if j == 0 {
        assert(t.subrange(0, 1) =~= seq![t[0]]);
        assert(seq![t[0]].subrange(1, 1) =~= Seq::<ItemModel>::empty());
        assert(row(x, Seq::<ItemModel>::empty()) =~= Seq::<ItemModel>::empty());
        assert(row(x, t.subrange(0, 1)) =~= seq![combine(x, t[0])]);
        assert(t.subrange(0, 0) =~= Seq::<ItemModel>::empty());
        assert(row(x, t.subrange(0, j + 1)) =~= row(x, t.subrange(0, j)) + seq![
            combine(x, t[j]),
        ]);
    } else {
        let t1 = t.subrange(1, t.len() as int);
        lemma_row_take(x, t1, j - 1);
        let a = t.subrange(0, j + 1);
        let b = t.subrange(0, j);
        assert(a.subrange(1, a.len() as int) =~= t1.subrange(0, j));
        assert(b.subrange(1, b.len() as int) =~= t1.subrange(0, j - 1));
        assert(t1[j - 1] == t[j]);
        assert(row(x, a) =~= row(x, b) + seq![combine(x, t[j])]);
    }
}

/// Crossing a one-longer prefix with `b` appends one more row.
pub proof fn lemma_cross_take(a: Seq<ItemModel>, b: Seq<ItemModel>, i: int)
    requires
        0 <= i < a.len(),
    ensures
        cross(a.subrange(0, i + 1), b) == cross(a.subrange(0, i), b) + row(a[i], b),
    decreases i,
{
    if i == 0 {
        assert(a.subrange(0, 1) =~= seq![a[0]]);
        assert(seq![a[0]].subrange(1, 1) =~= Seq::<ItemModel>::empty());
        assert(cross(Seq::<ItemModel>::empty(), b) =~= Seq::<ItemModel>::empty());
        assert(cross(a.subrange(0, 1), b) =~= row(a[0], b));
        assert(a.subrange(0, 0) =~= Seq::<ItemModel>::empty());
        assert(cross(a.subrange(0, i + 1), b) =~= cross(a.subrange(0, i), b) + row(a[i], b));
    } else {
        let a1 = a.subrange(1, a.len() as int);
        lemma_cross_take(a1, b, i - 1);
        let p = a.subrange(0, i + 1);
        let q = a.subrange(0, i);
        assert(p.subrange(1, p.len() as int) =~= a1.subrange(0, i));
        assert(q.subrange(1, q.len() as int) =~= a1.subrange(0, i - 1));
        assert(a1[i - 1] == a[i]);
        assert(cross(p, b) =~= cross(q, b) + row(a[i], b));
    }
}

/// The characters that must be escaped inside literal text.
pub open spec fn is_plain_special(c: char) -> bool {
    c == ',' || c == '{' || c == '}' || c == '\\'
}

/// The characters that must be escaped as a character-range endpoint.
pub open spec fn is_range_char_special(c: char) -> bool {
    c == ',' || c == '.' || c == '{' || c == '}' || c == '\\'
}

/// Literal text with every special character backslash-escaped.
pub open spec fn escape_plain(t: Seq<char>) -> Seq<char>
    decreases t.len(),
{
    if t.len() == 0 {
        Seq::empty()
    } else {
        (if is_plain_special(t[0]) {
            seq!['\\', t[0]]
        } else {
            seq![t[0]]
        }) + escape_plain(t.subrange(1, t.len() as int))
    }
}

/// Escaping a one-longer prefix appends that character's escaped form.
pub proof fn lemma_escape_take(t: Seq<char>, i: int)
    requires
        0 <= i < t.len(),
    ensures
        escape_plain(t.subrange(0, i + 1)) == escape_plain(t.subrange(0, i)) + (if is_plain_special(
            t[i],
        ) {
            seq!['\\', t[i]]
        } else {
            seq![t[i]]
        }),
    decreases i,
{
    if i == 0 {
        assert(t.subrange(0, 1) =~= seq![t[0]]);
        assert(seq![t[0]].subrange(1, 1) =~= Seq::<char>::empty());
        assert(t.subrange(0, 0) =~= Seq::<char>::empty());
        assert(escape_plain(t.subrange(0, i + 1)) =~= escape_plain(t.subrange(0, i)) + (
        if is_plain_special(t[i]) {
            seq!['\\', t[i]]
        } else {
            seq![t[i]]
        }));
    } else {
        let t1 = t.subrange(1, t.len() as int);
        lemma_escape_take(t1, i - 1);
        let a = t.subrange(0, i + 1);
        let b = t.subrange(0, i);
        assert(a.subrange(1, a.len() as int) =~= t1.subrange(0, i));
        assert(b.subrange(1, b.len() as int) =~= t1.subrange(0, i - 1));
        assert(t1[i - 1] == t[i]);
        assert(escape_plain(a) =~= escape_plain(b) + (if is_plain_special(t[i]) {
            seq!['\\', t[i]]
        } else {
            seq![t[i]]
        }));
    }
}

/// A character-range endpoint, escaped when special.
pub open spec fn esc_range_char(c: char) -> Seq<char> {
    if is_range_char_special(c) {
        seq!['\\', c]
    } else {
        seq![c]
    }
}

/// The canonical text of one part.
pub open spec fn format_of(p: PartView) -> Seq<char>
    decreases p,
{
    match p {
        PartView::Plain { text } => escape_plain(text),
        PartView::List { members } => seq!['{'] + format_members(members) + seq!['}'],
        PartView::IntRange { width, start, end, incr } => seq!['{'] + (match width {
            Some(_) => seq!['='],
            None => Seq::empty(),
        }) + dec_str(start as int) + seq!['.', '.'] + dec_str(end as int) + (if incr != 1 {
            seq!['.', '.'] + dec_digits(incr as nat)
        } else {
            Seq::empty()
        }) + seq!['}'],
        PartView::CharRange { start, end, incr } => seq!['{'] + esc_range_char(start)
            + seq!['.', '.'] + esc_range_char(end) + (if incr != 1 {
            seq!['.', '.'] + dec_digits(incr as nat)
        } else {
            Seq::empty()
        }) + seq!['}'],
        PartView::Expr { parts } => format_parts(parts),
    }
}

/// List members' canonical texts joined by commas.
pub open spec fn format_members(members: Seq<PartView>) -> Seq<char>
    decreases members,
{
    if members.len() == 0 {
        Seq::empty()
    } else if members.len() == 1 {
        format_of(members[0])
    } else {
        format_of(members[0]) + seq![','] + format_members(
            members.subrange(1, members.len() as int),
        )
    }
}

/// Sibling parts' canonical texts concatenated.
pub open spec fn format_parts(parts: Seq<PartView>) -> Seq<char>
    decreases parts,
{
    if parts.len() == 0 {
        Seq::empty()
    } else {
        format_of(parts[0]) + format_parts(parts.subrange(1, parts.len() as int))
    }
}

} // verus!
