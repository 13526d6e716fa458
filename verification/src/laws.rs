//! The guarantees the expansion obeys, proved once and for all: a literal
//! pattern expands to itself, a list contributes the sum of its members'
//! items, sibling parts multiply in odometer order, a range walk is an
//! arithmetic progression of the stated count, and fixed-width rendering
//! really is fixed-width.
use vstd::prelude::*;

use crate::CharTryFromError;
use crate::model::ItemModel;
use crate::model::PartView;
use crate::model::combine;
use crate::model::cross;
use crate::model::dec_digits;
use crate::model::dec_str;
use crate::model::expr_items;
use crate::model::items_of;
use crate::model::list_items;
use crate::model::pad_int;
use crate::model::render_int;
use crate::model::row;
use crate::sequence::walk;

verus! {

/// Every part of the run is literal text.
pub open spec fn all_plain(ps: Seq<PartView>) -> bool {
    forall|i: int| 0 <= i < ps.len() ==> (#[trigger] ps[i]) is Plain
}

/// The literal texts of the run, concatenated in order.
pub open spec fn plain_concat(ps: Seq<PartView>) -> Seq<char>
    decreases ps,
{
    if ps.len() == 0 {
        Seq::empty()
    } else {
        (match ps[0] {
            PartView::Plain { text } => text,
            _ => Seq::empty(),
        }) + plain_concat(ps.subrange(1, ps.len() as int))
    }
}

/// A pattern of literal parts alone expands to exactly one item: the
/// concatenation of the literal texts, with no error.
pub proof fn lemma_literal_pattern(ps: Seq<PartView>)
    requires
        all_plain(ps),
    ensures
        expr_items(ps) == seq![Ok::<Seq<char>, CharTryFromError>(plain_concat(ps))],
    decreases ps,
{
    if ps.len() == 0 {
    } else {
        let rest = ps.subrange(1, ps.len() as int);
        assert(forall|i: int| 0 <= i < rest.len() ==> (#[trigger] rest[i]) == ps[i + 1]);
        lemma_literal_pattern(rest);
        let text = ps[0]->Plain_text;
        let pc = plain_concat(rest);
        let head: Seq<ItemModel> = seq![Ok(text)];
        let tail: Seq<ItemModel> = seq![Ok(pc)];
        assert(items_of(ps[0]) == head);
        assert(tail.subrange(1, 1) =~= Seq::<ItemModel>::empty());
        assert(row(Ok::<Seq<char>, CharTryFromError>(text), Seq::<ItemModel>::empty())
            =~= Seq::<ItemModel>::empty());
        assert(row(Ok(text), tail) =~= seq![combine(Ok(text), Ok(pc))]);
        assert(head.subrange(1, 1) =~= Seq::<ItemModel>::empty());
        assert(cross(Seq::<ItemModel>::empty(), tail) =~= Seq::<ItemModel>::empty());
        assert(cross(head, tail) =~= seq![Ok::<Seq<char>, CharTryFromError>(text + pc)]);
        assert(expr_items(ps) =~= seq![Ok::<Seq<char>, CharTryFromError>(plain_concat(ps))]);
    }
}

/// How many items the members of a list contribute in all: the sum of the
/// members' own counts.
pub open spec fn sum_counts(members: Seq<PartView>) -> int
    decreases members,
{
    if members.len() == 0 {
        0
    } else {
        items_of(members[0]).len() + sum_counts(members.subrange(1, members.len() as int))
    }
}

/// A list's contribution has as many items as its members' counts summed —
/// a sum of alternatives, never a product.
pub proof fn lemma_list_sum(members: Seq<PartView>)
    ensures
        items_of(PartView::List { members }).len() == sum_counts(members),
    decreases members,
{
    if members.len() > 0 {
        lemma_list_sum(members.subrange(1, members.len() as int));
    }
}

/// Inside a list's contribution, member `k`'s items stand unchanged and in
/// order, right after all the items of the members before it.
pub proof fn lemma_list_member_position(members: Seq<PartView>, k: int, j: int)
    requires
        0 <= k < members.len(),
        0 <= j < items_of(members[k]).len(),
    ensures
        list_items(members)[sum_counts(members.subrange(0, k)) + j] == items_of(members[k])[j],
    decreases k,
{
    lemma_list_sum_nonneg(members.subrange(0, k));
    if k == 0 {
        assert(members.subrange(0, 0) =~= Seq::<PartView>::empty());
        assert(sum_counts(Seq::<PartView>::empty()) == 0);
        let head = items_of(members[0]);
        let rest = list_items(members.subrange(1, members.len() as int));
        assert(list_items(members) == head + rest);
        assert((head + rest)[j] == head[j]);
    } else {
        let rest = members.subrange(1, members.len() as int);
        lemma_list_member_position(rest, k - 1, j);
        assert(rest.subrange(0, k - 1) =~= members.subrange(0, k).subrange(1, k));
        assert(members.subrange(0, k)[0] == members[0]);
        let head = items_of(members[0]);
        let s1 = sum_counts(rest.subrange(0, k - 1));
        assert(sum_counts(members.subrange(0, k)) == head.len() + s1);
        lemma_list_sum_nonneg(rest.subrange(0, k - 1));
        assert(rest[k - 1] == members[k]);
        assert(list_items(members) == head + list_items(rest));
        lemma_list_sum(rest);
        lemma_sum_counts_split(rest, k - 1);
        assert(rest.subrange(k - 1, rest.len() as int)[0] == rest[k - 1]);
        assert(rest.subrange(k - 1, rest.len() as int).subrange(
            1,
            rest.len() - (k - 1),
        ) =~= rest.subrange(k, rest.len() as int));
        lemma_list_sum_nonneg(rest.subrange(k, rest.len() as int));
        assert(s1 + j < list_items(rest).len());
        assert((head + list_items(rest))[head.len() + s1 + j] == list_items(rest)[s1 + j]);
        assert(list_items(members)[sum_counts(members.subrange(0, k)) + j] == items_of(
            members[k],
        )[j]);
    }
}

/// The members' counts split around any position.
proof fn lemma_sum_counts_split(ms: Seq<PartView>, k: int)
    requires
        0 <= k <= ms.len(),
    ensures
        sum_counts(ms) == sum_counts(ms.subrange(0, k)) + sum_counts(
            ms.subrange(k, ms.len() as int),
        ),
    decreases k,
{
    if k == 0 {
        assert(ms.subrange(0, 0) =~= Seq::<PartView>::empty());
        assert(sum_counts(Seq::<PartView>::empty()) == 0);
        assert(ms.subrange(0, ms.len() as int) =~= ms);
    } else {
        let rest = ms.subrange(1, ms.len() as int);
        lemma_sum_counts_split(rest, k - 1);
        assert(ms.subrange(0, k).subrange(1, k) =~= rest.subrange(0, k - 1));
        assert(ms.subrange(0, k)[0] == ms[0]);
        assert(ms.subrange(k, ms.len() as int) =~= rest.subrange(k - 1, rest.len() as int));
    }
}

proof fn lemma_list_sum_nonneg(members: Seq<PartView>)
    ensures
        sum_counts(members) >= 0,
    decreases members,
{
    if members.len() > 0 {
        lemma_list_sum_nonneg(members.subrange(1, members.len() as int));
    }
}

/// Combining one item against a run keeps the run's length.
pub proof fn lemma_row_len(x: ItemModel, b: Seq<ItemModel>)
    ensures
        row(x, b).len() == b.len(),
    decreases b.len(),
{
    if b.len() > 0 {
        lemma_row_len(x, b.subrange(1, b.len() as int));
    }
}

/// Each combined item of a row is the one item against that position.
pub proof fn lemma_row_index(x: ItemModel, b: Seq<ItemModel>, j: int)
    requires
        0 <= j < b.len(),
    ensures
        row(x, b).len() == b.len(),
        row(x, b)[j] == combine(x, b[j]),
    decreases j,
{
    lemma_row_len(x, b);
    if j > 0 {
        let rest = b.subrange(1, b.len() as int);
        lemma_row_index(x, rest, j - 1);
    }
}

/// The product of two runs has the product of their lengths.
pub proof fn lemma_cross_len(a: Seq<ItemModel>, b: Seq<ItemModel>)
    ensures
        cross(a, b).len() == a.len() * b.len(),
    decreases a.len(),
{
    if a.len() == 0 {
        assert(0 * b.len() == 0) by (nonlinear_arith);
    } else {
        let rest = a.subrange(1, a.len() as int);
        lemma_cross_len(rest, b);
        lemma_row_len(a[0], b);
        assert(b.len() + (a.len() - 1) * b.len() == a.len() * b.len()) by (nonlinear_arith);
    }
}

/// Odometer order: in the product of two runs, the item at position
/// `i * |b| + j` combines item `i` of the left run with item `j` of the
/// right one — the left side varies slowest, the right side fastest.
pub proof fn lemma_cross_index(a: Seq<ItemModel>, b: Seq<ItemModel>, i: int, j: int)
    requires
        0 <= i < a.len(),
        0 <= j < b.len(),
    ensures
        cross(a, b)[i * b.len() + j] == combine(a[i], b[j]),
    decreases i,
{
    lemma_cross_len(a, b);
    lemma_row_len(a[0], b);
    if i == 0 {
        assert(0 * b.len() == 0) by (nonlinear_arith);
        lemma_row_index(a[0], b, j);
    } else {
        let rest = a.subrange(1, a.len() as int);
        let ll = b.len() as int;
        lemma_cross_index(rest, b, i - 1, j);
        lemma_cross_len(rest, b);
        assert(i * ll == (i - 1) * ll + ll) by (nonlinear_arith);
        assert((i - 1) * ll >= 0) by (nonlinear_arith)
            requires
                i >= 1,
                ll >= 0,
        ;
        assert((i - 1) * ll + j < rest.len() * ll) by (nonlinear_arith)
            requires
                0 <= i - 1 < rest.len(),
                0 <= j < ll,
        ;
        assert(cross(a, b) == row(a[0], b) + cross(rest, b));
        assert((row(a[0], b) + cross(rest, b))[i * ll + j] == cross(rest, b)[(i - 1) * ll + j]);
        assert(rest[i - 1] == a[i]);
    }
}

/// How many items the product of a whole run of parts yields: the product
/// of each part's own count.
pub open spec fn prod_counts(ps: Seq<PartView>) -> int
    decreases ps,
{
    if ps.len() == 0 {
        1
    } else {
        items_of(ps[0]).len() * prod_counts(ps.subrange(1, ps.len() as int))
    }
}

/// A pattern's expansion has exactly the product of its parts' item
/// counts; the empty pattern has exactly one item.
pub proof fn lemma_expr_product(ps: Seq<PartView>)
    ensures
        expr_items(ps).len() == prod_counts(ps),
    decreases ps,
{
    if ps.len() > 0 {
        let rest = ps.subrange(1, ps.len() as int);
        lemma_expr_product(rest);
        lemma_cross_len(items_of(ps[0]), expr_items(rest));
    }
}

/// Odometer order across a whole pattern: the first part varies slowest.
/// The item at `q * c + r` — where `c` is the count of the remaining
/// parts' product — combines choice `q` of the first part with item `r` of
/// the rest.
pub proof fn lemma_expr_odometer(ps: Seq<PartView>, q: int, r: int)
    requires
        ps.len() > 0,
        0 <= q < items_of(ps[0]).len(),
        0 <= r < expr_items(ps.subrange(1, ps.len() as int)).len(),
    ensures
        expr_items(ps)[q * expr_items(ps.subrange(1, ps.len() as int)).len() + r] == combine(
            items_of(ps[0])[q],
            expr_items(ps.subrange(1, ps.len() as int))[r],
        ),
{
    lemma_cross_index(items_of(ps[0]), expr_items(ps.subrange(1, ps.len() as int)), q, r);
}

/// A range walk is the inclusive arithmetic progression from its start
/// toward its end: it has `floor(|end - start| / step) + 1` positions, and
/// position `i` stands `i` steps from the start.
pub proof fn lemma_walk_progression(start: int, end: int, incr: int)
    requires
        incr >= 1,
    ensures
        start <= end ==> walk(start, end, incr).len() == (end - start) / incr + 1,
        start > end ==> walk(start, end, incr).len() == (start - end) / incr + 1,
        forall|i: int|
            0 <= i < walk(start, end, incr).len() ==> #[trigger] walk(start, end, incr)[i] == (
            if start <= end {
                start + i * incr
            } else {
                start - i * incr
            }),
    decreases (if start <= end {
        end - start
    } else {
        start - end
    }),
{
    let w = walk(start, end, incr);
    if start == end {
        vstd::arithmetic::div_mod::lemma_basic_div(0, incr);
        assert(w =~= seq![start]);
        assert(w[0] == start + 0 * incr) by (nonlinear_arith)
            requires
                w[0] == start,
        ;
    } else if start < end {
        if start + incr <= end {
            lemma_walk_progression(start + incr, end, incr);
            let tail = walk(start + incr, end, incr);
            vstd::arithmetic::div_mod::lemma_div_plus_one(end - start - incr, incr);
            assert(w =~= seq![start] + tail);
            assert forall|i: int| 0 <= i < w.len() implies #[trigger] w[i] == start + i * incr by {
                if i == 0 {
                    assert(start + 0 * incr == start) by (nonlinear_arith);
                } else {
                    assert(w[i] == tail[i - 1]);
                    assert(tail[i - 1] == (start + incr) + (i - 1) * incr);
                    assert((start + incr) + (i - 1) * incr == start + i * incr) by (nonlinear_arith);
                }
            }
        } else {
            vstd::arithmetic::div_mod::lemma_basic_div(end - start, incr);
            assert(w =~= seq![start]);
            assert(w[0] == start + 0 * incr) by (nonlinear_arith)
                requires
                    w[0] == start,
            ;
        }
    } else {
        if start - incr >= end {
            lemma_walk_progression(start - incr, end, incr);
            let tail = walk(start - incr, end, incr);
            vstd::arithmetic::div_mod::lemma_div_plus_one(start - end - incr, incr);
            assert(w =~= seq![start] + tail);
            assert forall|i: int| 0 <= i < w.len() implies #[trigger] w[i] == start - i * incr by {
                if i == 0 {
                    assert(start - 0 * incr == start) by (nonlinear_arith);
                } else {
                    assert(w[i] == tail[i - 1]);
                    assert(tail[i - 1] == (start - incr) - (i - 1) * incr);
                    assert((start - incr) - (i - 1) * incr == start - i * incr) by (nonlinear_arith);
                }
            }
        } else {
            vstd::arithmetic::div_mod::lemma_basic_div(start - end, incr);
            assert(w =~= seq![start]);
            assert(w[0] == start - 0 * incr) by (nonlinear_arith)
                requires
                    w[0] == start,
            ;
        }
    }
}

/// Every position a walk visits lies between its endpoints, inclusive.
pub proof fn lemma_walk_in_range(start: int, end: int, incr: int)
    requires
        incr >= 1,
    ensures
        forall|i: int|
            0 <= i < walk(start, end, incr).len() ==> {
                let lo = if start <= end {
                    start
                } else {
                    end
                };
                let hi = if start <= end {
                    end
                } else {
                    start
                };
                lo <= #[trigger] walk(start, end, incr)[i] <= hi
            },
    decreases (if start <= end {
        end - start
    } else {
        start - end
    }),
{
    let w = walk(start, end, incr);
    if start < end && start + incr <= end {
        lemma_walk_in_range(start + incr, end, incr);
        assert(w =~= seq![start] + walk(start + incr, end, incr));
    } else if start > end && start - incr >= end {
        lemma_walk_in_range(start - incr, end, incr);
        assert(w =~= seq![start] + walk(start - incr, end, incr));
    } else {
        assert(w =~= seq![start]);
    }
}

/// An ascending walk strictly increases, a descending walk strictly
/// decreases, and equal endpoints visit exactly the one shared position.
pub proof fn lemma_walk_direction(start: int, end: int, incr: int)
    requires
        incr >= 1,
    ensures
        start < end ==> forall|i: int|
            0 <= i < walk(start, end, incr).len() - 1 ==> #[trigger] walk(start, end, incr)[i]
                < walk(start, end, incr)[i + 1],
        start > end ==> forall|i: int|
            0 <= i < walk(start, end, incr).len() - 1 ==> #[trigger] walk(start, end, incr)[i]
                > walk(start, end, incr)[i + 1],
        start == end ==> walk(start, end, incr) == seq![start],
    decreases (if start <= end {
        end - start
    } else {
        start - end
    }),
{
    let w = walk(start, end, incr);
    if start == end {
        assert(w =~= seq![start]);
    } else if start < end {
        if start + incr <= end {
            lemma_walk_direction(start + incr, end, incr);
            let tail = walk(start + incr, end, incr);
            assert(w =~= seq![start] + tail);
            assert(tail.len() > 0);
            assert forall|i: int| 0 <= i < w.len() - 1 implies #[trigger] w[i] < w[i + 1] by {
                if i == 0 {
                    if start + incr < end {
                        lemma_walk_direction(start + incr, end, incr);
                    }
                    assert(tail[0] == start + incr);
                } else {
                    assert(w[i] == tail[i - 1] && w[i + 1] == tail[i]);
                }
            }
        } else {
            assert(w =~= seq![start]);
        }
    } else {
        if start - incr >= end {
            lemma_walk_direction(start - incr, end, incr);
            let tail = walk(start - incr, end, incr);
            assert(w =~= seq![start] + tail);
            assert(tail.len() > 0);
            assert forall|i: int| 0 <= i < w.len() - 1 implies #[trigger] w[i] > w[i + 1] by {
                if i == 0 {
                    assert(tail[0] == start - incr);
                } else {
                    assert(w[i] == tail[i - 1] && w[i + 1] == tail[i]);
                }
            }
        } else {
            assert(w =~= seq![start]);
        }
    }
}

/// Unescaping an escaped literal gives the literal back: the literal run
/// parser consumes exactly the escaped text and returns the original.
/// At the top level the literal may not hold a comma, which cannot be
/// written escaped there.
pub proof fn lemma_escape_roundtrip(t: Seq<char>, s: Seq<char>, pos: int, in_list: bool)
    requires
        0 <= pos,
        pos + crate::model::escape_plain(t).len() <= s.len(),
        s.subrange(pos, pos + crate::model::escape_plain(t).len()) == crate::model::escape_plain(
            t,
        ),
        pos + crate::model::escape_plain(t).len() == s.len() || s[pos + crate::model::escape_plain(
            t,
        ).len()] == '{' || s[pos + crate::model::escape_plain(t).len()] == '}' || (in_list && s[pos
            + crate::model::escape_plain(t).len()] == ','),
        in_list || (forall|i: int| 0 <= i < t.len() ==> t[i] != ','),
    ensures
        crate::parser::spec_plain(s, pos, in_list) == Some(
            (crate::model::escape_plain(t).len(), t),
        ),
    decreases t.len(),
{
    let e = crate::model::escape_plain(t);
    let tail = s.subrange(pos, pos + e.len() as int);
    if t.len() == 0 {
        assert(e =~= Seq::<char>::empty());
        if pos < s.len() {
            assert(s[pos] == '{' || s[pos] == '}' || (in_list && s[pos] == ','));
        }
    } else {
        let rest = t.subrange(1, t.len() as int);
        let erest = crate::model::escape_plain(rest);
        assert(forall|i: int| 0 <= i < rest.len() ==> rest[i] == t[i + 1]);
        if crate::model::is_plain_special(t[0]) {
            assert(e == seq!['\\', t[0]] + erest);
            assert(tail.len() == 2 + erest.len());
            assert(tail[0] == '\\');
            assert(tail[1] == t[0]);
            assert(s[pos] == tail[0]);
            assert(s[pos + 1] == tail[1]);
            assert(pos + 1 < s.len());
            assert(crate::parser::plain_escapable(t[0], in_list));
            assert forall|i: int| 0 <= i < erest.len() implies s.subrange(
                pos + 2,
                pos + 2 + erest.len(),
            )[i] == erest[i] by {
                assert(tail[i + 2] == erest[i]);
                assert(s.subrange(pos + 2, pos + 2 + erest.len())[i] == s[pos + 2 + i]);
                assert(tail[i + 2] == s[pos + 2 + i]);
            }
            assert(s.subrange(pos + 2, pos + 2 + erest.len()) =~= erest);
            lemma_escape_roundtrip(rest, s, pos + 2, in_list);
            assert(seq![t[0]] + rest =~= t);
        } else {
            assert(e == seq![t[0]] + erest);
            assert(tail.len() == 1 + erest.len());
            assert(tail[0] == t[0]);
            assert(s[pos] == tail[0]);
            assert(t[0] != '\\' && t[0] != '{' && t[0] != '}');
            assert forall|i: int| 0 <= i < erest.len() implies s.subrange(
                pos + 1,
                pos + 1 + erest.len(),
            )[i] == erest[i] by {
                assert(tail[i + 1] == erest[i]);
                assert(s.subrange(pos + 1, pos + 1 + erest.len())[i] == s[pos + 1 + i]);
                assert(tail[i + 1] == s[pos + 1 + i]);
            }
            assert(s.subrange(pos + 1, pos + 1 + erest.len()) =~= erest);
            lemma_escape_roundtrip(rest, s, pos + 1, in_list);
            assert(seq![t[0]] + rest =~= t);
        }
    }
}

/// Round trip for literal patterns: a non-empty comma-free literal,
/// escaped canonically, parses back to exactly that one literal part, and
/// rendering that parse reproduces the escaped text character for
/// character.
pub proof fn lemma_literal_roundtrip(t: Seq<char>)
    requires
        t.len() > 0,
        forall|i: int| 0 <= i < t.len() ==> t[i] != ',',
    ensures
        crate::parser::parse_result(crate::model::escape_plain(t)) == Some(
            seq![PartView::Plain { text: t }],
        ),
        crate::model::format_parts(seq![PartView::Plain { text: t }])
            == crate::model::escape_plain(t),
{
    let s = crate::model::escape_plain(t);
    assert(s.subrange(0, s.len() as int) =~= s);
    lemma_escape_roundtrip(t, s, 0, false);
    // the escaped text never begins with a bare brace, so no range or list
    // form can start and the literal run is the one top-level element
    let rest = t.subrange(1, t.len() as int);
    if crate::model::is_plain_special(t[0]) {
        assert(s == seq!['\\', t[0]] + crate::model::escape_plain(rest));
        assert(s[0] == '\\');
    } else {
        assert(s == seq![t[0]] + crate::model::escape_plain(rest));
        assert(s[0] == t[0] && t[0] != '{');
    }
    assert(s.len() > 0 && s[0] != '{');
    assert(crate::parser::spec_number_sequence(s, 0) is None);
    assert(crate::parser::spec_char_sequence(s, 0) is None);
    assert(crate::parser::spec_list(s, 0) is None);
    assert(crate::parser::spec_top_element(s, 0) == Some(
        (s.len() as nat, PartView::Plain { text: t }),
    ));
    assert(crate::parser::spec_plain(s, s.len() as int, false) == Some(
        (0nat, Seq::<char>::empty()),
    ));
    assert(crate::parser::spec_top_element(s, s.len() as int) is None);
    assert(crate::parser::spec_top_parts(s, s.len() as int) == (0nat, Seq::<PartView>::empty()));
    assert(crate::parser::spec_top_parts(s, 0) == (s.len() as nat, seq![
        PartView::Plain { text: t },
    ]));
    let one = seq![PartView::Plain { text: t }];
    assert(one.subrange(1, 1) =~= Seq::<PartView>::empty());
    assert(crate::model::format_parts(Seq::<PartView>::empty()) =~= Seq::<char>::empty());
    assert(one[0] == PartView::Plain { text: t });
    assert(crate::model::format_of(one[0]) == crate::model::escape_plain(t));
    assert(crate::model::format_parts(one) == crate::model::format_of(one[0])
        + crate::model::format_parts(one.subrange(1, 1)));
    assert(crate::model::escape_plain(t) + Seq::<char>::empty() =~= crate::model::escape_plain(t));
    assert(crate::model::format_parts(one) =~= crate::model::escape_plain(t));
}

/// The value of a digit run depends only on the characters it reads.
proof fn lemma_digits_val_eq(s1: Seq<char>, pos1: int, s2: Seq<char>, pos2: int, k: nat)
    requires
        forall|j: int| 0 <= j < k ==> #[trigger] s1[pos1 + j] == s2[pos2 + j],
    ensures
        crate::parser::digits_val(s1, pos1, k) == crate::parser::digits_val(s2, pos2, k),
    decreases k,
{
    if k > 0 {
        lemma_digits_val_eq(s1, pos1, s2, pos2, (k - 1) as nat);
    }
}

/// The canonical digits of `n` are digits and read back as `n`.
proof fn lemma_dec_digits_val(n: nat)
    ensures
        dec_digits(n).len() >= 1,
        forall|i: int|
            0 <= i < dec_digits(n).len() ==> crate::parser::is_digit_char(
                #[trigger] dec_digits(n)[i],
            ),
        crate::parser::digits_val(dec_digits(n), 0, dec_digits(n).len() as nat) == n,
    decreases n,
{
    let s = dec_digits(n);
    if n < 10 {
        assert(s =~= seq![crate::model::digit_char(n as int)]);
        assert('0' as u32 == 48);
        assert(crate::parser::is_digit_char(s[0]) && crate::parser::digit_val(s[0]) == n);
        assert(crate::parser::digits_val(s, 0, 0) == 0);
        assert(crate::parser::digits_val(s, 0, 1) == crate::parser::digit_val(s[0]));
        assert(crate::parser::digits_val(s, 0, s.len() as nat) == n);
    } else {
        lemma_dec_digits_val(n / 10);
        let pre = dec_digits(n / 10);
        let dc = crate::model::digit_char((n % 10) as int);
        assert(s == pre + seq![dc]);
        assert(crate::parser::is_digit_char(dc) && crate::parser::digit_val(dc) == n % 10);
        assert(forall|j: int| 0 <= j < pre.len() ==> s[j] == pre[j]);
        lemma_digits_val_eq(s, 0, pre, 0, pre.len() as nat);
        assert(s[s.len() - 1] == dc);
        assert(crate::parser::digits_val(s, 0, s.len() as nat) == crate::parser::digits_val(
            s,
            0,
            (s.len() - 1) as nat,
        ) * 10 + crate::parser::digit_val(dc));
    }
}

/// Round trip for unsigned number tokens: wherever the canonical decimal
/// rendering of a value stands, followed by no further digit, the number
/// parser reads back exactly that value and consumes exactly those digits.
pub proof fn lemma_number_token_at(s: Seq<char>, pos: int, n: u64)
    requires
        0 <= pos,
        pos + dec_digits(n as nat).len() <= s.len(),
        s.subrange(pos, pos + dec_digits(n as nat).len()) == dec_digits(n as nat),
        pos + dec_digits(n as nat).len() == s.len() || !crate::parser::is_digit_char(
            s[pos + dec_digits(n as nat).len()],
        ),
    ensures
        crate::parser::spec_u64(s, pos) == Some((dec_digits(n as nat).len() as nat, n)),
{
    let mag = dec_digits(n as nat);
    lemma_dec_digits_val(n as nat);
    assert(forall|j: int| 0 <= j < mag.len() ==> #[trigger] s[pos + j] == mag[j]);
    assert forall|j: int|
        pos <= j < pos + mag.len() implies crate::parser::is_digit_char(#[trigger] s[j]) by {
        assert(s[pos + (j - pos)] == mag[j - pos]);
        assert(crate::parser::is_digit_char(mag[j - pos]));
    }
    crate::parser::lemma_digit_run(s, pos, pos + mag.len());
    lemma_digits_val_eq(s, pos, mag, 0, mag.len() as nat);
}

/// Round trip for unsigned number tokens standing alone.
pub proof fn lemma_number_token_roundtrip(n: u64)
    ensures
        crate::parser::spec_u64(dec_digits(n as nat), 0) == Some(
            (dec_digits(n as nat).len() as nat, n),
        ),
{
    let s = dec_digits(n as nat);
    assert(s.subrange(0, s.len() as int) =~= s);
    lemma_number_token_at(s, 0, n);
}

/// Round trip for signed number tokens: wherever the canonical decimal
/// rendering of a value stands, minus sign included and followed by no
/// further digit, the signed parser reads back exactly that value.
pub proof fn lemma_int_token_at(s: Seq<char>, pos: int, v: i64)
    requires
        0 <= pos,
        pos + dec_str(v as int).len() <= s.len(),
        s.subrange(pos, pos + dec_str(v as int).len()) == dec_str(v as int),
        pos + dec_str(v as int).len() == s.len() || !crate::parser::is_digit_char(
            s[pos + dec_str(v as int).len()],
        ),
    ensures
        crate::parser::spec_i64(s, pos) == Some((dec_str(v as int).len() as nat, v)),
{
    let t = dec_str(v as int);
    if v >= 0 {
        lemma_dec_digits_val(v as nat);
        assert(forall|j: int| 0 <= j < t.len() ==> #[trigger] s[pos + j] == t[j]);
        assert forall|j: int|
            pos <= j < pos + t.len() implies crate::parser::is_digit_char(#[trigger] s[j]) by {
            assert(s[pos + (j - pos)] == t[j - pos]);
            assert(crate::parser::is_digit_char(t[j - pos]));
        }
        crate::parser::lemma_digit_run(s, pos, pos + t.len());
        lemma_digits_val_eq(s, pos, t, 0, t.len() as nat);
        assert(s[pos + 0] == t[0]);
        assert(s[pos] != '-' && s[pos] != '+');
    } else {
        let m = (-(v as int)) as nat;
        let mag = dec_digits(m);
        lemma_dec_digits_val(m);
        assert(t == seq!['-'] + mag);
        assert(forall|j: int| 0 <= j < t.len() ==> #[trigger] s[pos + j] == t[j]);
        assert(s[pos + 0] == t[0]);
        assert(s[pos] == '-');
        assert(forall|j: int| 0 <= j < mag.len() ==> #[trigger] mag[j] == t[1 + j]);
        assert forall|j: int|
            pos + 1 <= j < pos + t.len() implies crate::parser::is_digit_char(#[trigger] s[j]) by {
            assert(s[pos + (j - pos)] == t[j - pos]);
            assert(mag[j - pos - 1] == t[j - pos]);
            assert(crate::parser::is_digit_char(mag[j - pos - 1]));
        }
        crate::parser::lemma_digit_run(s, pos + 1, pos + t.len());
        lemma_digits_val_eq(s, pos + 1, mag, 0, mag.len() as nat);
        assert(crate::parser::digits_val(s, pos + 1, mag.len() as nat) == m);
        assert(m <= 0x8000_0000_0000_0000);
    }
}

/// Round trip for signed number tokens standing alone.
pub proof fn lemma_int_token_roundtrip(v: i64)
    ensures
        crate::parser::spec_i64(dec_str(v as int), 0) == Some(
            (dec_str(v as int).len() as nat, v),
        ),
{
    let s = dec_str(v as int);
    assert(s.subrange(0, s.len() as int) =~= s);
    lemma_int_token_at(s, 0, v);
}

/// Wherever a canonically rendered numeric range stands, the numeric
/// range parser reads back exactly that range, consuming exactly its text.
/// The width is canonical when it equals the longer endpoint token.
#[verifier::rlimit(80)]
pub proof fn lemma_int_range_at(s: Seq<char>, pos: int, width: Option<usize>, start: i64, end: i64, incr: u64)
    requires
        incr >= 1,
        (match width {
            Some(w) => w == (if dec_str(start as int).len() >= dec_str(end as int).len() {
                dec_str(start as int).len()
            } else {
                dec_str(end as int).len()
            }),
            None => true,
        }),
        0 <= pos,
        pos + crate::model::format_of(PartView::IntRange { width, start, end, incr }).len()
            <= s.len(),
        s.subrange(
            pos,
            pos + crate::model::format_of(PartView::IntRange { width, start, end, incr }).len(),
        ) == crate::model::format_of(PartView::IntRange { width, start, end, incr }),
    ensures
        crate::parser::spec_number_sequence(s, pos) == Some(
            (
                crate::model::format_of(PartView::IntRange { width, start, end, incr }).len()
                    as nat,
                PartView::IntRange { width, start, end, incr },
            ),
        ),
{
    let pv = PartView::IntRange { width, start, end, incr };
    let f = crate::model::format_of(pv);
    let eqs: Seq<char> = match width {
        Some(_) => seq!['='],
        None => Seq::empty(),
    };
    let st = dec_str(start as int);
    let en = dec_str(end as int);
    let ins: Seq<char> = if incr != 1 {
        seq!['.', '.'] + dec_digits(incr as nat)
    } else {
        Seq::empty()
    };
    assert(f == seq!['{'] + eqs + st + seq!['.', '.'] + en + ins + seq!['}']);
    assert(forall|i: int| 0 <= i < f.len() ==> #[trigger] s[pos + i] == f[i]);
    lemma_dec_digits_val(incr as nat);
    if start as int >= 0 {
        lemma_dec_digits_val(start as nat);
    } else {
        lemma_dec_digits_val((-(start as int)) as nat);
        assert(st == seq!['-'] + dec_digits((-(start as int)) as nat));
    }
    if end as int >= 0 {
        lemma_dec_digits_val(end as nat);
    } else {
        lemma_dec_digits_val((-(end as int)) as nat);
        assert(en == seq!['-'] + dec_digits((-(end as int)) as nat));
    }
    let q1 = 1 + eqs.len() as int;
    let n1 = st.len() as int;
    let q2 = q1 + n1;
    let n2 = en.len() as int;
    let q3 = q2 + 2 + n2;
    let q4 = q3 + ins.len() as int;
    assert(f.len() == q4 + 1);
    assert(f[0] == '{');
    assert(s[pos + 0] == '{');
    assert(st[0] == '-' || crate::parser::is_digit_char(st[0]));
    assert(en[0] == '-' || crate::parser::is_digit_char(en[0]));
    assert(f[q1] == st[0]);
    assert((width is Some) ==> f[1] == '=' && s[pos + 1] == '=');
    assert((width is None) ==> f[1] == st[0] && s[pos + 1] != '=');
    assert forall|j: int| 0 <= j < n1 implies s.subrange(pos + q1, pos + q1 + n1)[j] == st[j] by {
        assert(f[q1 + j] == st[j]);
        assert(s[pos + (q1 + j)] == f[q1 + j]);
        assert(s.subrange(pos + q1, pos + q1 + n1)[j] == s[pos + q1 + j]);
    }
    assert(s.subrange(pos + q1, pos + q1 + n1) =~= st);
    assert(f[q2] == '.' && f[q2 + 1] == '.');
    assert(s[pos + q2] == '.' && s[pos + (q2 + 1)] == '.');
    assert(!crate::parser::is_digit_char('.'));
    lemma_int_token_at(s, pos + q1, start);
    assert forall|j: int| 0 <= j < n2 implies s.subrange(
        pos + q2 + 2,
        pos + q2 + 2 + n2,
    )[j] == en[j] by {
        assert(f[q2 + 2 + j] == en[j]);
        assert(s[pos + (q2 + 2 + j)] == f[q2 + 2 + j]);
        assert(s.subrange(pos + q2 + 2, pos + q2 + 2 + n2)[j] == s[pos + q2 + 2 + j]);
    }
    assert(s.subrange(pos + q2 + 2, pos + q2 + 2 + n2) =~= en);
    if incr != 1 {
        assert(f[q3] == '.');
        assert(s[pos + q3] == '.');
    } else {
        assert(f[q3] == '}');
        assert(s[pos + q3] == '}');
    }
    lemma_int_token_at(s, pos + q2 + 2, end);
    if incr != 1 {
        let mag = dec_digits(incr as nat);
        assert(f[q3] == '.' && f[q3 + 1] == '.');
        assert(s[pos + q3] == '.' && s[pos + (q3 + 1)] == '.');
        assert forall|j: int| 0 <= j < mag.len() implies s.subrange(
            pos + q3 + 2,
            pos + q3 + 2 + mag.len(),
        )[j] == mag[j] by {
            assert(f[q3 + 2 + j] == mag[j]);
            assert(s[pos + (q3 + 2 + j)] == f[q3 + 2 + j]);
            assert(s.subrange(pos + q3 + 2, pos + q3 + 2 + mag.len())[j] == s[pos + q3 + 2 + j]);
        }
        assert(s.subrange(pos + q3 + 2, pos + q3 + 2 + mag.len()) =~= mag);
        assert(f[q4] == '}');
        assert(s[pos + q4] == '}');
        assert(!crate::parser::is_digit_char('}'));
        lemma_number_token_at(s, pos + q3 + 2, incr);
        assert(crate::parser::spec_number_incr(s, pos + q3) == Some(
            ((mag.len() + 2) as nat, incr),
        ));
    } else {
        assert(crate::parser::spec_number_incr(s, pos + q3) is None);
    }
    assert(f[q4] == '}');
    assert(s[pos + q4] == '}');
    assert(crate::parser::spec_number_sequence(s, pos) == Some((f.len() as nat, pv)));
}

/// Round trip for numeric range patterns: a numeric range rendered
/// canonically — its endpoints in canonical decimal, its step written only
/// when it is not one, and a fixed width only when it equals the longer
/// endpoint token — parses back to exactly that range and to nothing else.
pub proof fn lemma_int_range_roundtrip(width: Option<usize>, start: i64, end: i64, incr: u64)
    requires
        incr >= 1,
        (match width {
            Some(w) => w == (if dec_str(start as int).len() >= dec_str(end as int).len() {
                dec_str(start as int).len()
            } else {
                dec_str(end as int).len()
            }),
            None => true,
        }),
    ensures
        crate::parser::parse_result(
            crate::model::format_of(PartView::IntRange { width, start, end, incr }),
        ) == Some(seq![PartView::IntRange { width, start, end, incr }]),
{
    let pv = PartView::IntRange { width, start, end, incr };
    let s = crate::model::format_of(pv);
    assert(s.subrange(0, s.len() as int) =~= s);
    lemma_int_range_at(s, 0, width, start, end, incr);
    assert(crate::parser::spec_top_element(s, 0) == Some((s.len() as nat, pv)));
    assert(crate::parser::spec_plain(s, s.len() as int, false) == Some(
        (0nat, Seq::<char>::empty()),
    ));
    assert(crate::parser::spec_top_element(s, s.len() as int) is None);
    assert(crate::parser::spec_top_parts(s, s.len() as int) == (0nat, Seq::<PartView>::empty()));
    assert(crate::parser::spec_top_parts(s, 0) == (s.len() as nat, seq![pv]));
}

/// Wherever a canonically rendered character range stands, the character
/// range parser reads back exactly that range and the numeric form does
/// not match.  Two unescaped digit endpoints are left out: that text is a
/// numeric range's.
#[verifier::rlimit(80)]
pub proof fn lemma_char_range_at(s: Seq<char>, pos: int, start: char, end: char, incr: u32)
    requires
        incr >= 1,
        !(crate::parser::is_digit_char(start) && crate::parser::is_digit_char(end)),
        0 <= pos,
        pos + crate::model::format_of(PartView::CharRange { start, end, incr }).len() <= s.len(),
        s.subrange(
            pos,
            pos + crate::model::format_of(PartView::CharRange { start, end, incr }).len(),
        ) == crate::model::format_of(PartView::CharRange { start, end, incr }),
    ensures
        crate::parser::spec_char_sequence(s, pos) == Some(
            (
                crate::model::format_of(PartView::CharRange { start, end, incr }).len() as nat,
                PartView::CharRange { start, end, incr },
            ),
        ),
        crate::parser::spec_number_sequence(s, pos) is None,
{
    let pv = PartView::CharRange { start, end, incr };
    let f = crate::model::format_of(pv);
    let es = crate::model::esc_range_char(start);
    let ee = crate::model::esc_range_char(end);
    let ins: Seq<char> = if incr != 1 {
        seq!['.', '.'] + dec_digits(incr as nat)
    } else {
        Seq::empty()
    };
    assert(f == seq!['{'] + es + seq!['.', '.'] + ee + ins + seq!['}']);
    assert(forall|i: int| 0 <= i < f.len() ==> #[trigger] s[pos + i] == f[i]);
    lemma_dec_digits_val(incr as nat);
    let q2 = 1 + es.len() as int;
    let q3 = q2 + 2 + ee.len() as int;
    let q4 = q3 + ins.len() as int;
    assert(f.len() == q4 + 1);
    assert(f[0] == '{');
    assert(s[pos + 0] == '{');
    // the start endpoint reads back
    if crate::model::is_range_char_special(start) {
        assert(f[1] == '\\' && f[2] == start);
        assert(s[pos + 1] == '\\' && s[pos + 2] == start);
        assert(crate::parser::spec_sequence_char(s, pos + 1) == Some((2nat, start)));
    } else {
        assert(f[1] == start);
        assert(s[pos + 1] == start);
        assert(crate::parser::spec_sequence_char(s, pos + 1) == Some((1nat, start)));
    }
    assert(f[q2] == '.' && f[q2 + 1] == '.');
    assert(s[pos + q2] == '.' && s[pos + (q2 + 1)] == '.');
    // the end endpoint reads back
    if crate::model::is_range_char_special(end) {
        assert(f[q2 + 2] == '\\' && f[q2 + 3] == end);
        assert(s[pos + (q2 + 2)] == '\\' && s[pos + (q2 + 3)] == end);
        assert(crate::parser::spec_sequence_char(s, pos + q2 + 2) == Some((2nat, end)));
    } else {
        assert(f[q2 + 2] == end);
        assert(s[pos + (q2 + 2)] == end);
        assert(crate::parser::spec_sequence_char(s, pos + q2 + 2) == Some((1nat, end)));
    }
    // the step reads back, or is absent and defaults to one
    if incr != 1 {
        let mag = dec_digits(incr as nat);
        assert(f[q3] == '.' && f[q3 + 1] == '.');
        assert(s[pos + q3] == '.' && s[pos + (q3 + 1)] == '.');
        assert forall|j: int| 0 <= j < mag.len() implies s.subrange(
            pos + q3 + 2,
            pos + q3 + 2 + mag.len(),
        )[j] == mag[j] by {
            assert(f[q3 + 2 + j] == mag[j]);
            assert(s[pos + (q3 + 2 + j)] == f[q3 + 2 + j]);
            assert(s.subrange(pos + q3 + 2, pos + q3 + 2 + mag.len())[j] == s[pos + q3 + 2 + j]);
        }
        assert(s.subrange(pos + q3 + 2, pos + q3 + 2 + mag.len()) =~= mag);
        assert(f[q4] == '}');
        assert(s[pos + q4] == '}');
        assert(!crate::parser::is_digit_char('}'));
        assert forall|j: int|
            pos + q3 + 2 <= j < pos + q3 + 2 + mag.len() implies crate::parser::is_digit_char(
            #[trigger] s[j],
        ) by {
            assert(s.subrange(pos + q3 + 2, pos + q3 + 2 + mag.len())[j - pos - q3 - 2] == mag[j
                - pos - q3 - 2]);
            assert(s[j] == mag[j - pos - q3 - 2]);
            assert(crate::parser::is_digit_char(mag[j - pos - q3 - 2]));
        }
        crate::parser::lemma_digit_run(s, pos + q3 + 2, pos + q3 + 2 + mag.len());
        lemma_digits_val_eq(s, pos + q3 + 2, mag, 0, mag.len() as nat);
        assert(crate::parser::spec_u32(s, pos + q3 + 2) == Some((mag.len() as nat, incr)));
        assert(crate::parser::spec_char_incr(s, pos + q3) == Some(((mag.len() + 2) as nat, incr)));
    } else {
        assert(f[q3] == '}');
        assert(s[pos + q3] == '}');
        assert(crate::parser::spec_char_incr(s, pos + q3) is None);
    }
    assert(f[q4] == '}');
    assert(s[pos + q4] == '}');
    assert(crate::parser::spec_char_sequence(s, pos) == Some((f.len() as nat, pv)));
    // the numeric form never matches this text: its first endpoint is no
    // signed number, or its second is no signed number
    assert(crate::parser::spec_number_sequence(s, pos) is None) by {
        if crate::model::is_range_char_special(start) {
            // the text holds an escaping backslash where a number would be
            assert(s[pos + 1] == '\\');
            assert(!crate::parser::is_digit_char('\\') && s[pos + 1] != '-' && s[pos + 1] != '+'
                && s[pos + 1] != '=');
            assert(crate::parser::digit_run_len(s, pos + 1) == 0);
            assert(crate::parser::spec_i64(s, pos + 1) is None);
        } else {
            assert(s[pos + 1] == start);
            if start == '=' {
                // a lone '=' asks for fixed width and leaves no digits
                assert(s[pos + 2] == '.');
                assert(crate::parser::digit_run_len(s, pos + 2) == 0);
                assert(crate::parser::digit_run_len(s, pos + 3) == 0);
                assert(crate::parser::spec_i64(s, pos + 2) is None);
            } else if start == '-' || start == '+' {
                // a sign with no digit after it is no number
                assert(s[pos + 2] == '.');
                assert(crate::parser::digit_run_len(s, pos + 2) == 0);
                assert(crate::parser::spec_i64(s, pos + 1) is None);
            } else if crate::parser::is_digit_char(start) {
                // then the end is no digit, so the second number fails
                assert(!crate::parser::is_digit_char(end));
                assert(s[pos + 2] == '.');
                assert(crate::parser::digit_run_len(s, pos + 2) == 0);
                assert(crate::parser::digit_run_len(s, pos + 1) == 1);
                assert(crate::parser::digits_val(s, pos + 1, 0) == 0);
                assert(crate::parser::digits_val(s, pos + 1, 1) == crate::parser::digit_val(
                    s[pos + 1],
                ));
                assert(crate::parser::spec_i64(s, pos + 1) matches Some(t) && t.0 == 1);
                assert(s[pos + 2] == '.' && s[pos + 3] == '.');
                if crate::model::is_range_char_special(end) {
                    assert(s[pos + 4] == '\\');
                    assert(crate::parser::digit_run_len(s, pos + 4) == 0);
                    assert(s[pos + 4] != '-' && s[pos + 4] != '+');
                    assert(crate::parser::spec_i64(s, pos + 4) is None);
                } else {
                    assert(s[pos + 4] == end);
                    if end == '-' || end == '+' {
                        assert(s[pos + 5] == '.' || s[pos + 5] == '}');
                        assert(crate::parser::digit_run_len(s, pos + 5) == 0);
                    } else {
                        assert(crate::parser::digit_run_len(s, pos + 4) == 0);
                    }
                    assert(crate::parser::spec_i64(s, pos + 4) is None);
                }
            } else {
                assert(!crate::parser::is_digit_char(s[pos + 1]) && s[pos + 1] != '-' && s[pos + 1]
                    != '+' && s[pos + 1] != '=');
                assert(crate::parser::digit_run_len(s, pos + 1) == 0);
                assert(crate::parser::spec_i64(s, pos + 1) is None);
            }
        }
    }
}

/// Round trip for character range patterns: a character range rendered
/// canonically — its endpoints escaped exactly when structural, its step
/// written only when it is not one — parses back to exactly that range.
/// Two unescaped digit endpoints are left out: that text is a numeric
/// range's, not a character range's.
pub proof fn lemma_char_range_roundtrip(start: char, end: char, incr: u32)
    requires
        incr >= 1,
        !(crate::parser::is_digit_char(start) && crate::parser::is_digit_char(end)),
    ensures
        crate::parser::parse_result(
            crate::model::format_of(PartView::CharRange { start, end, incr }),
        ) == Some(seq![PartView::CharRange { start, end, incr }]),
{
    let pv = PartView::CharRange { start, end, incr };
    let s = crate::model::format_of(pv);
    assert(s.subrange(0, s.len() as int) =~= s);
    lemma_char_range_at(s, 0, start, end, incr);
    assert(crate::parser::spec_seq_part(s, 0) == Some((s.len() as nat, pv)));
    assert(crate::parser::spec_top_element(s, 0) == Some((s.len() as nat, pv)));
    assert(crate::parser::spec_plain(s, s.len() as int, false) == Some(
        (0nat, Seq::<char>::empty()),
    ));
    assert(crate::parser::spec_top_element(s, s.len() as int) is None);
    assert(crate::parser::spec_top_parts(s, s.len() as int) == (0nat, Seq::<PartView>::empty()));
    assert(crate::parser::spec_top_parts(s, 0) == (s.len() as nat, seq![pv]));
}

/// One part of a list-free pattern, rendered canonically: a non-empty
/// comma-free literal, a numeric range whose width if fixed equals the
/// longer endpoint token, or a character range that is no numeric range in
/// disguise.
pub open spec fn canonical_flat_part(p: PartView) -> bool {
    match p {
        PartView::Plain { text } => text.len() > 0 && (forall|i: int|
            0 <= i < text.len() ==> text[i] != ','),
        PartView::IntRange { width, start, end, incr } => incr >= 1 && (match width {
            Some(w) => w == (if dec_str(start as int).len() >= dec_str(end as int).len() {
                dec_str(start as int).len()
            } else {
                dec_str(end as int).len()
            }),
            None => true,
        }),
        PartView::CharRange { start, end, incr } => incr >= 1 && !(crate::parser::is_digit_char(
            start,
        ) && crate::parser::is_digit_char(end)),
        PartView::List { .. } => false,
        PartView::Expr { .. } => false,
    }
}

/// A list-free pattern rendered canonically: every part canonical, and no
/// two literals adjacent (they would re-parse as one).
pub open spec fn canonical_flat(ps: Seq<PartView>) -> bool {
    (forall|i: int| 0 <= i < ps.len() ==> canonical_flat_part(#[trigger] ps[i])) && (forall|i: int|
        0 <= i && i + 1 < ps.len() ==> !((#[trigger] ps[i]) is Plain && ps[i + 1] is Plain))
}

/// The canonical text of a run of flat parts, standing as a suffix of `s`,
/// parses back to exactly those parts.
#[verifier::rlimit(100)]
proof fn lemma_flat_parts_at(ps: Seq<PartView>, s: Seq<char>, pos: int)
    requires
        canonical_flat(ps),
        0 <= pos,
        pos + crate::model::format_parts(ps).len() == s.len(),
        s.subrange(pos, s.len() as int) == crate::model::format_parts(ps),
    ensures
        crate::parser::spec_top_parts(s, pos) == (
            crate::model::format_parts(ps).len() as nat,
            ps,
        ),
    decreases ps,
{
    let fp = crate::model::format_parts(ps);
    if ps.len() == 0 {
        assert(fp =~= Seq::<char>::empty());
        assert(pos == s.len());
        assert(crate::parser::spec_plain(s, pos, false) == Some((0nat, Seq::<char>::empty())));
        assert(crate::parser::spec_top_element(s, pos) is None);
    } else {
        let p = ps[0];
        let rest = ps.subrange(1, ps.len() as int);
        let f1 = crate::model::format_of(p);
        let frest = crate::model::format_parts(rest);
        assert(fp == f1 + frest);
        assert(forall|i: int| 0 <= i < fp.len() ==> #[trigger] s[pos + i] == fp[i]);
        assert(canonical_flat_part(p));
        assert forall|i: int| 0 <= i < rest.len() implies canonical_flat_part(
            #[trigger] rest[i],
        ) by {
            assert(rest[i] == ps[i + 1]);
            assert(canonical_flat_part(ps[i + 1]));
        }
        assert forall|i: int| 0 <= i && i + 1 < rest.len() implies !((#[trigger] rest[i]) is Plain
            && rest[i + 1] is Plain) by {
            assert(rest[i] == ps[i + 1] && rest[i + 1] == ps[i + 2]);
            assert(!(ps[i + 1] is Plain && ps[i + 2] is Plain));
        }
        assert forall|j: int| 0 <= j < f1.len() implies s.subrange(pos, pos + f1.len())[j]
            == f1[j] by {
            assert(fp[j] == f1[j]);
            assert(s[pos + j] == fp[j]);
            assert(s.subrange(pos, pos + f1.len())[j] == s[pos + j]);
        }
        assert(s.subrange(pos, pos + f1.len()) =~= f1);
        let pos2 = pos + f1.len() as int;
        assert forall|j: int| 0 <= j < frest.len() implies s.subrange(pos2, s.len() as int)[j]
            == frest[j] by {
            assert(fp[f1.len() + j] == frest[j]);
            assert(s[pos + (f1.len() + j)] == fp[f1.len() + j]);
            assert(s.subrange(pos2, s.len() as int)[j] == s[pos2 + j]);
        }
        assert(s.subrange(pos2, s.len() as int) =~= frest);
        match p {
            PartView::Plain { text } => {
                assert(f1 == crate::model::escape_plain(text));
                // after the literal stands the end or the brace of a range
                if rest.len() > 0 {
                    let q = rest[0];
                    assert(!(q is Plain));
                    assert(canonical_flat_part(q));
                    assert(frest == crate::model::format_of(q) + crate::model::format_parts(
                        rest.subrange(1, rest.len() as int),
                    ));
                    assert(crate::model::format_of(q)[0] == '{');
                    assert(crate::model::format_of(q).len() > 0);
                    assert(frest[0] == '{');
                    assert(s[pos2] == '{');
                }
                lemma_escape_roundtrip(text, s, pos, false);
                // a literal's first character is never a bare brace
                let erest = crate::model::escape_plain(text.subrange(1, text.len() as int));
                if crate::model::is_plain_special(text[0]) {
                    assert(f1 == seq!['\\', text[0]] + erest);
                    assert(f1[0] == '\\');
                } else {
                    assert(f1 == seq![text[0]] + erest);
                    assert(f1[0] == text[0] && text[0] != '{');
                }
                assert(s[pos + 0] == f1[0]);
                assert(s[pos] != '{');
                assert(crate::parser::spec_number_sequence(s, pos) is None);
                assert(crate::parser::spec_char_sequence(s, pos) is None);
                assert(crate::parser::spec_list(s, pos) is None);
                assert(crate::parser::spec_top_element(s, pos) == Some((f1.len() as nat, p)));
            },
            PartView::IntRange { width, start, end, incr } => {
                lemma_int_range_at(s, pos, width, start, end, incr);
                assert(crate::parser::spec_top_element(s, pos) == Some((f1.len() as nat, p)));
            },
            PartView::CharRange { start, end, incr } => {
                lemma_char_range_at(s, pos, start, end, incr);
                assert(crate::parser::spec_top_element(s, pos) == Some((f1.len() as nat, p)));
            },
            _ => {
                assert(false);
            },
        }
        assert(f1.len() >= 1);
        lemma_flat_parts_at(rest, s, pos2);
        assert(crate::parser::spec_top_parts(s, pos) == (
            (f1.len() + frest.len()) as nat,
            seq![p] + rest,
        ));
        assert(seq![p] + rest =~= ps);
    }
}

/// Round trip for list-free patterns: any canonical mix of literals and
/// ranges, rendered to text, parses back to exactly the same parts — so
/// rendering the parse reproduces the text character for character.
pub proof fn lemma_flat_roundtrip(ps: Seq<PartView>)
    requires
        canonical_flat(ps),
    ensures
        crate::parser::parse_result(crate::model::format_parts(ps)) == Some(ps),
{
    let s = crate::model::format_parts(ps);
    assert(s.subrange(0, s.len() as int) =~= s);
    lemma_flat_parts_at(ps, s, 0);
}

/// The decimal rendering never shrinks as the value grows.
proof fn lemma_dec_len_mono(a: nat, b: nat)
    requires
        a <= b,
    ensures
        dec_digits(a).len() <= dec_digits(b).len(),
    decreases b,
{
    if b >= 10 {
        if a >= 10 {
            vstd::arithmetic::div_mod::lemma_div_is_ordered(a as int, b as int, 10);
            lemma_dec_len_mono(a / 10, b / 10);
        } else {
            lemma_dec_len_nonzero(b / 10);
        }
    }
}

proof fn lemma_dec_len_nonzero(n: nat)
    ensures
        dec_digits(n).len() >= 1,
    decreases n,
{
    if n >= 10 {
        lemma_dec_len_nonzero(n / 10);
    }
}

/// Fixed-width rendering: when the requested width covers both endpoint
/// renderings, every item of the range is exactly that many characters,
/// left-zero-padded, with the minus sign kept as the leading character of
/// a negative value.
pub proof fn lemma_fixed_width(w: usize, start: i64, end: i64, incr: u64)
    requires
        incr >= 1,
        w >= dec_str(start as int).len(),
        w >= dec_str(end as int).len(),
    ensures
        forall|i: int|
            0 <= i < walk(start as int, end as int, incr as int).len() ==> {
                let v = #[trigger] walk(start as int, end as int, incr as int)[i];
                render_int(v, Some(w)).len() == w && (v < 0 ==> render_int(v, Some(w))[0] == '-')
            },
{
    let s = start as int;
    let e = end as int;
    let lo = if s <= e {
        s
    } else {
        e
    };
    let hi = if s <= e {
        e
    } else {
        s
    };
    lemma_walk_in_range(s, e, incr as int);
    assert forall|i: int| 0 <= i < walk(s, e, incr as int).len() implies {
        let v = #[trigger] walk(s, e, incr as int)[i];
        render_int(v, Some(w)).len() == w && (v < 0 ==> render_int(v, Some(w))[0] == '-')
    } by {
        let v = walk(s, e, incr as int)[i];
        assert(lo <= v <= hi);
        if v < 0 {
            // the magnitude is at most the low endpoint's magnitude
            assert(lo < 0);
            lemma_dec_len_mono((-v) as nat, (-lo) as nat);
            assert(dec_str(lo).len() == 1 + dec_digits((-lo) as nat).len());
            assert(dec_str(v).len() <= w);
            let dl = dec_digits((-v) as nat).len() as int;
            assert(pad_int(v, w as int).len() == 1 + (w - 1 - dl) + dl);
            assert(pad_int(v, w as int)[0] == '-');
        } else {
            assert(hi >= 0);
            lemma_dec_len_mono(v as nat, hi as nat);
            assert(dec_str(hi).len() == dec_digits(hi as nat).len());
            let dl = dec_digits(v as nat).len() as int;
            assert(dl <= w);
            assert(pad_int(v, w as int).len() == (w - dl) + dl);
        }
    }
}

} // verus!
