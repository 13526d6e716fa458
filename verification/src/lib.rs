//! Shell-style brace expansion: parse a pattern with alternative lists and
//! numeric or character ranges, enumerate every string it denotes, and render
//! the parsed tree back to canonical text.
use vstd::prelude::*;

pub mod laws;
pub mod model;
pub mod parser;
mod render;
pub mod sequence;

verus! {

/// Error produced when a character range walks onto a code point that is not
/// a valid Unicode scalar value.  Only the affected item fails; the walk
/// continues past it.
#[derive(Clone, Copy, Debug, PartialEq, Eq, Structural)]
pub struct CharTryFromError;

/// A brace-enclosed list of alternative patterns, `{a,b,c}`: its expansion
/// is the concatenation of its members' expansions, in source order.
#[derive(Debug)]
pub struct List(pub Vec<Part>);

/// A brace range as it appears in a pattern: a numeric range with its
/// optional fixed width, or a character range.
#[derive(Clone, Copy, Debug)]
pub enum Sequence {
    Int { width: Option<usize>, sequence: sequence::Sequence<i64> },
    Char(sequence::Sequence<char>),
}

/// One position of a pattern: literal text, an alternatives list, a range,
/// or a nested pattern (a list member mixing several parts).
#[derive(Debug)]
pub enum Part {
    Plain(String),
    List(List),
    Sequence(Sequence),
    Expression(Expression),
}

/// A parsed brace pattern: an ordered concatenation of parts.  Created by
/// `Expression::try_from` or `str::parse`; expanded by `into_iter`; rendered
/// back to canonical text by `fmt`.
#[derive(Debug)]
pub struct Expression(pub Vec<Part>);

/// The model value of a range part.
pub open spec fn sequence_view(sq: Sequence) -> model::PartView {
    match sq {
        Sequence::Int { width, sequence } => model::PartView::IntRange {
            width,
            start: sequence.start,
            end: sequence.end,
            incr: sequence.incr,
        },
        Sequence::Char(s) => model::PartView::CharRange {
            start: s.start,
            end: s.end,
            incr: s.incr,
        },
    }
}

/// The model value of one part.
pub open spec fn part_view(p: Part) -> model::PartView
    decreases p,
{
    match p {
        Part::Plain(s) => model::PartView::Plain { text: s@ },
        Part::List(l) => model::PartView::List { members: parts_view(l.0@) },
        Part::Sequence(sq) => sequence_view(sq),
        Part::Expression(e) => model::PartView::Expr { parts: parts_view(e.0@) },
    }
}

/// The model values of a run of parts, in order.
pub open spec fn parts_view(ps: Seq<Part>) -> Seq<model::PartView>
    decreases ps,
{
    if ps.len() == 0 {
        Seq::empty()
    } else {
        seq![part_view(ps[0])] + parts_view(ps.subrange(1, ps.len() as int))
    }
}

pub proof fn lemma_parts_view(ps: Seq<Part>)
    ensures
        parts_view(ps).len() == ps.len(),
        forall|i: int| 0 <= i < ps.len() ==> #[trigger] parts_view(ps)[i] == part_view(ps[i]),
    decreases ps,
{
    if ps.len() > 0 {
        lemma_parts_view(ps.subrange(1, ps.len() as int));
    }
}

impl View for Sequence {
    type V = model::PartView;

    open spec fn view(&self) -> model::PartView {
        sequence_view(*self)
    }
}

impl View for Part {
    type V = model::PartView;

    open spec fn view(&self) -> model::PartView {
        part_view(*self)
    }
}

impl View for List {
    type V = Seq<model::PartView>;

    open spec fn view(&self) -> Seq<model::PartView> {
        parts_view(self.0@)
    }
}

impl View for Expression {
    type V = Seq<model::PartView>;

    open spec fn view(&self) -> Seq<model::PartView> {
        parts_view(self.0@)
    }
}

/// A fatal parse failure: the grammar stopped matching at `offset`, an
/// index into the input's characters, without consuming the whole input.
/// `context` holds the unconsumed rest of the input as an excerpt.  No
/// partial tree is ever returned.
#[derive(Clone, Debug)]
pub struct ParseError {
    pub offset: usize,
    pub context: String,
}

/// The text of a parse failure's description.
pub open spec fn parse_error_message(offset: nat, context: Seq<char>) -> Seq<char> {
    "brace pattern parse error at character "@ + model::dec_digits(offset) + ": "@ + context
}

impl ParseError {
    /// A human-readable description naming the character position where
    /// parsing stopped and showing the unconsumed rest of the input.
    pub fn message(&self) -> (r: String)
        ensures
            r@ == parse_error_message(self.offset as nat, self.context@),
    {
        let mut m = String::from_str("brace pattern parse error at character ");
        let digits = render::u64_to_string(self.offset as u64);
        m.append(digits.as_str());
        m.append(": ");
        m.append(self.context.as_str());
        m
    }
}

/// One expansion output: a produced string, or a failed character
/// conversion.
pub type ExpandItem = Result<String, CharTryFromError>;

/// The model value of one expansion output.
pub open spec fn item_view(it: ExpandItem) -> model::ItemModel {
    match it {
        Ok(s) => Ok(s@),
        Err(e) => Err(e),
    }
}

/// The model values of a run of expansion outputs.
pub open spec fn items_view(its: Seq<ExpandItem>) -> Seq<model::ItemModel> {
    its.map_values(|it: ExpandItem| item_view(it))
}

/// Concatenation of two outputs; an error on either side poisons the
/// result, the earlier side winning.
fn combine_item(x: &ExpandItem, y: &ExpandItem) -> (r: ExpandItem)
    ensures
        item_view(r) == model::combine(item_view(*x), item_view(*y)),
{
    match x {
        Err(_) => Err(CharTryFromError),
        Ok(s) => match y {
            Err(_) => Err(CharTryFromError),
            Ok(t) => {
                let mut joined = s.clone();
                joined.append(t.as_str());
                Ok(joined)
            },
        },
    }
}

/// The cartesian product of two output runs in odometer order: items of `a`
/// vary slowest, items of `b` fastest.
fn cross_vecs(a: &Vec<ExpandItem>, b: &Vec<ExpandItem>) -> (r: Vec<ExpandItem>)
    ensures
        items_view(r@) == model::cross(items_view(a@), items_view(b@)),
{
    let ghost av = items_view(a@);
    let ghost bv = items_view(b@);
    let mut r: Vec<ExpandItem> = Vec::new();
    proof {
        assert(av.subrange(0, 0) =~= Seq::<model::ItemModel>::empty());
        assert(items_view(r@) =~= model::cross(av.subrange(0, 0), bv));
    }
    let mut i: usize = 0;
    while i < a.len()
        invariant
            i <= a.len(),
            av == items_view(a@),
            bv == items_view(b@),
            items_view(r@) == model::cross(av.subrange(0, i as int), bv),
        decreases a.len() - i,
    {
        let ghost r0 = items_view(r@);
        let mut j: usize = 0;
        proof {
            assert(bv.subrange(0, 0) =~= Seq::<model::ItemModel>::empty());
            assert(items_view(r@) =~= r0 + model::row(av[i as int], bv.subrange(0, 0)));
        }
        while j < b.len()
            invariant
                j <= b.len(),
                i < a.len(),
                av == items_view(a@),
                bv == items_view(b@),
                r0 == model::cross(av.subrange(0, i as int), bv),
                items_view(r@) == r0 + model::row(av[i as int], bv.subrange(0, j as int)),
            decreases b.len() - j,
        {
            let ghost rprev = items_view(r@);
            let c = combine_item(&a[i], &b[j]);
            let ghost cv = item_view(c);
            r.push(c);
            j = j + 1;
            proof {
                assert(items_view(r@) =~= rprev + seq![cv]);
                assert(cv == model::combine(av[i as int], bv[j - 1]));
                model::lemma_row_take(av[i as int], bv, j - 1);
                assert(items_view(r@) =~= r0 + model::row(av[i as int], bv.subrange(0, j as int)));
            }
        }
        i = i + 1;
        proof {
            assert(bv.subrange(0, bv.len() as int) =~= bv);
            model::lemma_cross_take(av, bv, i - 1);
            assert(items_view(r@) =~= model::cross(av.subrange(0, i as int), bv));
        }
    }
    proof {
        assert(av.subrange(0, av.len() as int) =~= av);
    }
    r
}

impl Sequence {
    /// The output items this range contributes, in walk order: numeric
    /// values rendered as decimal text, zero-padded when a fixed width was
    /// requested; characters as one-character strings, or an error where
    /// the walk stepped onto an invalid code point.
    pub fn items(&self) -> (r: Vec<ExpandItem>)
        requires
            model::wf_part(self@),
        ensures
            items_view(r@) == model::items_of(self@),
    {
        match self {
            Sequence::Int { width, sequence } => {
                let sq = *sequence;
                let wd = *width;
                let ghost full = sq.positions();
                let ghost target = model::int_range_items(wd, sq.start, sq.end, sq.incr);
                let mut it = sq.into_iter();
                let mut out: Vec<ExpandItem> = Vec::new();
                let mut fin = false;
                proof {
                    assert(it.remaining() =~= full.subrange(0, full.len() as int));
                }
                while !fin
                    invariant
                        it.step_val() == sq.step_val(),
                        sq.step_val() >= 1,
                        out.len() <= full.len(),
                        full == sq.positions(),
                        target == model::int_range_items(wd, sq.start, sq.end, sq.incr),
                        it.remaining() == full.subrange(out.len() as int, full.len() as int),
                        fin ==> out.len() == full.len(),
                        items_view(out@) == target.subrange(0, out.len() as int),
                    decreases it.remaining().len() + (if fin {
                        0int
                    } else {
                        1int
                    }),
                {
                    match it.next() {
                        None => {
                            fin = true;
                        },
                        Some(item) => {
                            let ghost k = out.len() as int;
                            let ghost oprev = items_view(out@);
                            proof {
                                assert(k < full.len());
                            }
                            match item {
                                Ok(v) => {
                                    let rendered = render::render_int_value(v, wd);
                                    proof {
                                        assert(v as int == full[k]);
                                        assert(target[k] == Ok::<Seq<char>, CharTryFromError>(
                                            model::render_int(full[k], wd),
                                        ));
                                    }
                                    out.push(Ok(rendered));
                                },
                                Err(_) => {
                                    proof {
                                        assert(false);
                                    }
                                    out.push(Err(CharTryFromError));
                                },
                            }
                            proof {
                                assert(items_view(out@) =~= oprev + seq![target[k]]);
                                assert(it.remaining() =~= full.subrange(
                                    out.len() as int,
                                    full.len() as int,
                                ));
                                assert(items_view(out@) =~= target.subrange(0, out.len() as int));
                            }
                        },
                    }
                }
                proof {
                    assert(target.subrange(0, target.len() as int) =~= target);
                }
                out
            },
            Sequence::Char(sequence) => {
                let sq = *sequence;
                let ghost full = sq.positions();
                let ghost target = model::char_range_items(sq.start, sq.end, sq.incr);
                let mut it = sq.into_iter();
                let mut out: Vec<ExpandItem> = Vec::new();
                let mut fin = false;
                proof {
                    assert(it.remaining() =~= full.subrange(0, full.len() as int));
                }
                while !fin
                    invariant
                        it.step_val() == sq.step_val(),
                        sq.step_val() >= 1,
                        out.len() <= full.len(),
                        full == sq.positions(),
                        target == model::char_range_items(sq.start, sq.end, sq.incr),
                        it.remaining() == full.subrange(out.len() as int, full.len() as int),
                        fin ==> out.len() == full.len(),
                        items_view(out@) == target.subrange(0, out.len() as int),
                    decreases it.remaining().len() + (if fin {
                        0int
                    } else {
                        1int
                    }),
                {
                    match it.next() {
                        None => {
                            fin = true;
                        },
                        Some(item) => {
                            let ghost k = out.len() as int;
                            let ghost oprev = items_view(out@);
                            proof {
                                assert(k < full.len());
                            }
                            match item {
                                Ok(c) => {
                                    proof {
                                        vstd::utf8::char_u32_cast(c, c as u32);
                                        assert((c as u32) as int == full[k]);
                                        assert(full[k] as char == c);
                                        assert(target[k] == Ok::<Seq<char>, CharTryFromError>(
                                            seq![c],
                                        ));
                                    }
                                    out.push(Ok(render::char_to_string(c)));
                                },
                                Err(e) => {
                                    proof {
                                        assert(target[k] == Err::<Seq<char>, CharTryFromError>(
                                            CharTryFromError,
                                        ));
                                    }
                                    out.push(Err(e));
                                },
                            }
                            proof {
                                assert(items_view(out@) =~= oprev + seq![target[k]]);
                                assert(it.remaining() =~= full.subrange(
                                    out.len() as int,
                                    full.len() as int,
                                ));
                                assert(items_view(out@) =~= target.subrange(0, out.len() as int));
                            }
                        },
                    }
                }
                proof {
                    assert(target.subrange(0, target.len() as int) =~= target);
                }
                out
            },
        }
    }
}

impl Part {
    /// The ordered output items this part contributes to its position.
    pub fn items(&self) -> (r: Vec<ExpandItem>)
        requires
            model::wf_part(self@),
        ensures
            items_view(r@) == model::items_of(self@),
        decreases *self,
    {
        match self {
            Part::Plain(s) => {
                let mut out: Vec<ExpandItem> = Vec::new();
                out.push(Ok(s.clone()));
                proof {
                    assert(items_view(out@) =~= model::items_of(self@));
                }
                out
            },
            Part::Sequence(sq) => sq.items(),
            Part::List(l) => {
                proof {
                    assert(l.0@.subrange(0, l.0@.len() as int) =~= l.0@);
                    assert(decreases_to!(*self => l.0@));
                }
                let out = list_items_vec(&l.0, 0);
                proof {
                    let pv = parts_view(l.0@);
                    lemma_parts_view(l.0@);
                    assert(pv.subrange(0, pv.len() as int) =~= pv);
                }
                out
            },
            Part::Expression(e) => {
                proof {
                    assert(e.0@.subrange(0, e.0@.len() as int) =~= e.0@);
                    assert(decreases_to!(*self => e.0@));
                }
                let out = expr_items_vec(&e.0, 0);
                proof {
                    let pv = parts_view(e.0@);
                    lemma_parts_view(e.0@);
                    assert(pv.subrange(0, pv.len() as int) =~= pv);
                }
                out
            },
        }
    }
}

/// The concatenated items of the members from position `i` on: a sum of
/// alternatives in member order.
fn list_items_vec(members: &Vec<Part>, i: usize) -> (r: Vec<ExpandItem>)
    requires
        i <= members.len(),
        model::wf_parts(parts_view(members@)),
    ensures
        items_view(r@) == model::list_items(
            parts_view(members@).subrange(i as int, parts_view(members@).len() as int),
        ),
    decreases members@.subrange(i as int, members@.len() as int),
{
    proof {
        lemma_parts_view(members@);
    }
    let ghost pv = parts_view(members@);
    if i == members.len() {
        let r: Vec<ExpandItem> = Vec::new();
        proof {
            assert(pv.subrange(i as int, pv.len() as int) =~= Seq::<model::PartView>::empty());
            assert(items_view(r@) =~= model::list_items(pv.subrange(i as int, pv.len() as int)));
        }
        r
    } else {
        proof {
            model::lemma_wf_parts_index(pv);
            assert(pv[i as int] == part_view(members@[i as int]));
            assert(model::wf_part(pv[i as int]));
            assert(decreases_to!(members@.subrange(i as int, members@.len() as int) => members@.subrange(i as int, members@.len() as int)[0]));
            assert(members@.subrange(i as int, members@.len() as int)[0] == members@[i as int]);
        }
        let mut r = members[i].items();
        proof {
            assert(members@.subrange(i as int, members@.len() as int).subrange(
                1,
                members@.len() - i,
            ) =~= members@.subrange(i + 1, members@.len() as int));
            assert(decreases_to!(members@.subrange(i as int, members@.len() as int) => members@.subrange(i as int, members@.len() as int).subrange(1, members@.len() - i)));
        }
        let mut rest = list_items_vec(members, i + 1);
        r.append(&mut rest);
        proof {
            let sub = pv.subrange(i as int, pv.len() as int);
            assert(sub[0] == part_view(members@[i as int]));
            assert(sub.subrange(1, sub.len() as int) =~= pv.subrange(i + 1, pv.len() as int));
            assert(items_view(r@) =~= model::items_of(sub[0]) + model::list_items(
                sub.subrange(1, sub.len() as int),
            ));
        }
        r
    }
}

/// The cartesian product of the parts from position `i` on, in odometer
/// order; no parts at all give the single empty string.
fn expr_items_vec(parts: &Vec<Part>, i: usize) -> (r: Vec<ExpandItem>)
    requires
        i <= parts.len(),
        model::wf_parts(parts_view(parts@)),
    ensures
        items_view(r@) == model::expr_items(
            parts_view(parts@).subrange(i as int, parts_view(parts@).len() as int),
        ),
    decreases parts@.subrange(i as int, parts@.len() as int),
{
    proof {
        lemma_parts_view(parts@);
    }
    let ghost pv = parts_view(parts@);
    if i == parts.len() {
        let mut r: Vec<ExpandItem> = Vec::new();
        r.push(Ok(String::new()));
        proof {
            assert(pv.subrange(i as int, pv.len() as int) =~= Seq::<model::PartView>::empty());
            assert(items_view(r@) =~= model::expr_items(pv.subrange(i as int, pv.len() as int)));
        }
        r
    } else {
        proof {
            model::lemma_wf_parts_index(pv);
            assert(pv[i as int] == part_view(parts@[i as int]));
            assert(model::wf_part(pv[i as int]));
            assert(decreases_to!(parts@.subrange(i as int, parts@.len() as int) => parts@.subrange(i as int, parts@.len() as int)[0]));
            assert(parts@.subrange(i as int, parts@.len() as int)[0] == parts@[i as int]);
        }
        let dim = parts[i].items();
        proof {
            assert(parts@.subrange(i as int, parts@.len() as int).subrange(1, parts@.len() - i)
                =~= parts@.subrange(i + 1, parts@.len() as int));
            assert(decreases_to!(parts@.subrange(i as int, parts@.len() as int) => parts@.subrange(i as int, parts@.len() as int).subrange(1, parts@.len() - i)));
        }
        let rest = expr_items_vec(parts, i + 1);
        let r = cross_vecs(&dim, &rest);
        proof {
            let sub = pv.subrange(i as int, pv.len() as int);
            assert(sub[0] == part_view(parts@[i as int]));
            assert(sub.subrange(1, sub.len() as int) =~= pv.subrange(i + 1, pv.len() as int));
        }
        r
    }
}

/// Whether `c` must be escaped inside literal text.
fn plain_special(c: char) -> (r: bool)
    ensures
        r == model::is_plain_special(c),
{
    c == ',' || c == '{' || c == '}' || c == '\\'
}

/// Whether `c` must be escaped as a character-range endpoint.
fn range_char_special(c: char) -> (r: bool)
    ensures
        r == model::is_range_char_special(c),
{
    c == ',' || c == '.' || c == '{' || c == '}' || c == '\\'
}

/// Literal text with every structural character backslash-escaped.
fn escape_plain_str(s: &String) -> (r: String)
    ensures
        r@ == model::escape_plain(s@),
{
    let n = s.as_str().unicode_len();
    let mut out = String::new();
    let mut i: usize = 0;
    proof {
        assert(s@.subrange(0, 0) =~= Seq::<char>::empty());
    }
    while i < n
        invariant
            n == s@.len(),
            i <= n,
            out@ == model::escape_plain(s@.subrange(0, i as int)),
        decreases n - i,
    {
        let c = s.as_str().get_char(i);
        if plain_special(c) {
            render::push_char(&mut out, '\\');
            render::push_char(&mut out, c);
        } else {
            render::push_char(&mut out, c);
        }
        i = i + 1;
        proof {
            model::lemma_escape_take(s@, i - 1);
            assert(out@ =~= model::escape_plain(s@.subrange(0, i as int)));
        }
    }
    proof {
        assert(s@.subrange(0, s@.len() as int) =~= s@);
    }
    out
}

impl Sequence {
    /// The canonical text of this range, braces and escaping included.
    pub fn fmt(&self) -> (r: String)
        ensures
            r@ == model::format_of(self@),
    {
        let mut out = String::new();
        render::push_char(&mut out, '{');
        match self {
            Sequence::Int { width, sequence } => {
                if width.is_some() {
                    render::push_char(&mut out, '=');
                }
                let st = render::render_int_value(sequence.start, None);
                out.append(st.as_str());
                render::push_char(&mut out, '.');
                render::push_char(&mut out, '.');
                let en = render::render_int_value(sequence.end, None);
                out.append(en.as_str());
                if sequence.incr != 1 {
                    render::push_char(&mut out, '.');
                    render::push_char(&mut out, '.');
                    let ic = render::u64_to_string(sequence.incr);
                    out.append(ic.as_str());
                }
            },
            Sequence::Char(sequence) => {
                if range_char_special(sequence.start) {
                    render::push_char(&mut out, '\\');
                }
                render::push_char(&mut out, sequence.start);
                render::push_char(&mut out, '.');
                render::push_char(&mut out, '.');
                if range_char_special(sequence.end) {
                    render::push_char(&mut out, '\\');
                }
                render::push_char(&mut out, sequence.end);
                if sequence.incr != 1 {
                    render::push_char(&mut out, '.');
                    render::push_char(&mut out, '.');
                    let ic = render::u64_to_string(sequence.incr as u64);
                    out.append(ic.as_str());
                }
            },
        }
        render::push_char(&mut out, '}');
        proof {
            assert(out@ =~= model::format_of(self@));
        }
        out
    }
}

impl Part {
    /// The canonical text of this part.
    pub fn fmt(&self) -> (r: String)
        ensures
            r@ == model::format_of(self@),
        decreases *self, 0int,
    {
        match self {
            Part::Plain(s) => escape_plain_str(s),
            Part::Sequence(sq) => sq.fmt(),
            Part::List(l) => l.fmt(),
            Part::Expression(e) => e.fmt(),
        }
    }
}

/// List members' canonical texts from position `i` on, joined by commas.
fn fmt_members_vec(members: &Vec<Part>, i: usize) -> (r: String)
    requires
        i <= members.len(),
    ensures
        r@ == model::format_members(
            parts_view(members@).subrange(i as int, parts_view(members@).len() as int),
        ),
    decreases members@.subrange(i as int, members@.len() as int), 0int,
{
    proof {
        lemma_parts_view(members@);
    }
    let ghost pv = parts_view(members@);
    if i == members.len() {
        let r = String::new();
        proof {
            assert(pv.subrange(i as int, pv.len() as int) =~= Seq::<model::PartView>::empty());
        }
        r
    } else {
        proof {
            assert(pv[i as int] == part_view(members@[i as int]));
            assert(decreases_to!(members@.subrange(i as int, members@.len() as int) => members@.subrange(i as int, members@.len() as int)[0]));
            assert(members@.subrange(i as int, members@.len() as int)[0] == members@[i as int]);
        }
        let mut r = members[i].fmt();
        if i + 1 < members.len() {
            render::push_char(&mut r, ',');
            proof {
                assert(members@.subrange(i as int, members@.len() as int).subrange(
                    1,
                    members@.len() - i,
                ) =~= members@.subrange(i + 1, members@.len() as int));
                assert(decreases_to!(members@.subrange(i as int, members@.len() as int) => members@.subrange(i as int, members@.len() as int).subrange(1, members@.len() - i)));
            }
            let rest = fmt_members_vec(members, i + 1);
            r.append(rest.as_str());
        }
        proof {
            let sub = pv.subrange(i as int, pv.len() as int);
            assert(sub[0] == part_view(members@[i as int]));
            assert(sub.subrange(1, sub.len() as int) =~= pv.subrange(i + 1, pv.len() as int));
            assert(r@ =~= model::format_members(sub));
        }
        r
    }
}

/// Sibling parts' canonical texts from position `i` on, concatenated.
fn fmt_parts_vec(parts: &Vec<Part>, i: usize) -> (r: String)
    requires
        i <= parts.len(),
    ensures
        r@ == model::format_parts(
            parts_view(parts@).subrange(i as int, parts_view(parts@).len() as int),
        ),
    decreases parts@.subrange(i as int, parts@.len() as int), 0int,
{
    proof {
        lemma_parts_view(parts@);
    }
    let ghost pv = parts_view(parts@);
    if i == parts.len() {
        let r = String::new();
        proof {
            assert(pv.subrange(i as int, pv.len() as int) =~= Seq::<model::PartView>::empty());
        }
        r
    } else {
        proof {
            assert(pv[i as int] == part_view(parts@[i as int]));
            assert(decreases_to!(parts@.subrange(i as int, parts@.len() as int) => parts@.subrange(i as int, parts@.len() as int)[0]));
            assert(parts@.subrange(i as int, parts@.len() as int)[0] == parts@[i as int]);
        }
        let mut r = parts[i].fmt();
        proof {
            assert(parts@.subrange(i as int, parts@.len() as int).subrange(1, parts@.len() - i)
                =~= parts@.subrange(i + 1, parts@.len() as int));
            assert(decreases_to!(parts@.subrange(i as int, parts@.len() as int) => parts@.subrange(i as int, parts@.len() as int).subrange(1, parts@.len() - i)));
        }
        let rest = fmt_parts_vec(parts, i + 1);
        r.append(rest.as_str());
        proof {
            let sub = pv.subrange(i as int, pv.len() as int);
            assert(sub[0] == part_view(parts@[i as int]));
            assert(sub.subrange(1, sub.len() as int) =~= pv.subrange(i + 1, pv.len() as int));
            assert(r@ =~= model::format_parts(sub));
        }
        r
    }
}

impl List {
    /// The canonical text of this list: `{`, the members joined by commas,
    /// `}`.
    pub fn fmt(&self) -> (r: String)
        ensures
            r@ == seq!['{'] + model::format_members(self@) + seq!['}'],
        decreases self.0@, 1int,
    {
        proof {
            assert(self.0@.subrange(0, self.0@.len() as int) =~= self.0@);
        }
        let mut out = String::new();
        render::push_char(&mut out, '{');
        let inner = fmt_members_vec(&self.0, 0);
        out.append(inner.as_str());
        render::push_char(&mut out, '}');
        proof {
            let pv = parts_view(self.0@);
            assert(pv.subrange(0, pv.len() as int) =~= pv);
            assert(out@ =~= seq!['{'] + model::format_members(pv) + seq!['}']);
        }
        out
    }
}

impl Expression {
    /// The canonical text of this pattern: its parts' texts concatenated.
    pub fn fmt(&self) -> (r: String)
        ensures
            r@ == model::format_parts(self@),
        decreases self.0@, 1int,
    {
        proof {
            assert(self.0@.subrange(0, self.0@.len() as int) =~= self.0@);
        }
        let out = fmt_parts_vec(&self.0, 0);
        proof {
            let pv = parts_view(self.0@);
            assert(pv.subrange(0, pv.len() as int) =~= pv);
        }
        out
    }
}

impl std::str::FromStr for Expression {
    type Err = String;

    fn from_str(s: &str) -> Result<Expression, String> {
        match Expression::try_from(s) {
            Ok(e) => Ok(e.into_owned()),
            Err(m) => Err(m),
        }
    }
}

/// Iterator over the strings an expansion produces, in odometer order.
#[derive(Debug)]
pub struct ExpressionIterator {
    items: Vec<ExpandItem>,
    pos: usize,
}

impl ExpressionIterator {
    #[verifier::type_invariant]
    spec fn type_inv(self) -> bool {
        self.pos <= self.items@.len()
    }

    /// The output items still to be yielded.
    pub closed spec fn remaining(self) -> Seq<model::ItemModel> {
        items_view(self.items@).subrange(self.pos as int, self.items@.len() as int)
    }

    /// Yields the next output item, or None when the enumeration is done.
    pub fn next(&mut self) -> (r: Option<ExpandItem>)
        ensures
            r is Some <==> old(self).remaining().len() > 0,
            r is None ==> final(self).remaining() == old(self).remaining(),
            r matches Some(item) ==> final(self).remaining() == old(self).remaining().drop_first()
                && item_view(item) == old(self).remaining()[0],
    {
        proof {
            use_type_invariant(&*self);
        }
        if self.pos < self.items.len() {
            let item: ExpandItem = match &self.items[self.pos] {
                Ok(s) => Ok(s.clone()),
                Err(_) => Err(CharTryFromError),
            };
            self.pos = self.pos + 1;
            proof {
                assert(final(self).remaining() =~= old(self).remaining().drop_first());
            }
            Some(item)
        } else {
            None
        }
    }
}

impl List {
    /// A tree independent of any borrowed source text.  Every tree this
    /// crate builds already owns its text, so this returns the value as is.
    pub fn into_owned(self) -> (r: List)
        ensures
            r == self,
    {
        self
    }

    /// An iterator over this list's contribution: each member's items in
    /// member order — a sum of the alternatives, never a product.
    pub fn into_iter(self) -> (it: ExpressionIterator)
        requires
            model::wf_parts(self@),
        ensures
            it.remaining() == model::list_items(self@),
    {
        let items = list_items_vec(&self.0, 0);
        proof {
            let pv = parts_view(self.0@);
            assert(pv.subrange(0, pv.len() as int) =~= pv);
        }
        let it = ExpressionIterator { items, pos: 0 };
        proof {
            assert(it.remaining() =~= items_view(it.items@));
        }
        it
    }
}

impl Sequence {
    /// An iterator over the rendered items of this range.
    pub fn into_iter(self) -> (it: ExpressionIterator)
        requires
            model::wf_part(self@),
        ensures
            it.remaining() == model::items_of(self@),
    {
        let items = self.items();
        let it = ExpressionIterator { items, pos: 0 };
        proof {
            assert(it.remaining() =~= items_view(it.items@));
        }
        it
    }
}

impl Part {
    /// A tree independent of any borrowed source text.  Every tree this
    /// crate builds already owns its text, so this returns the value as is.
    pub fn into_owned(self) -> (r: Part)
        ensures
            r == self,
    {
        self
    }

    /// An iterator over the items this part contributes to its position.
    pub fn into_iter(self) -> (it: ExpressionIterator)
        requires
            model::wf_part(self@),
        ensures
            it.remaining() == model::items_of(self@),
    {
        let items = self.items();
        let it = ExpressionIterator { items, pos: 0 };
        proof {
            assert(it.remaining() =~= items_view(it.items@));
        }
        it
    }
}

impl Expression {
    /// A tree independent of any borrowed source text.  Every tree this
    /// crate builds already owns its text, so this returns the value as is.
    pub fn into_owned(self) -> (r: Expression)
        ensures
            r == self,
    {
        self
    }

    /// Parses a brace pattern: the expression exactly when the grammar
    /// matches the whole input, otherwise an error message naming the
    /// character position where parsing stopped.
    pub fn try_from(value: &str) -> (r: Result<Expression, String>)
        ensures
            (match r {
                Ok(e) => parser::parse_result(value@) == Some(e@) && model::wf_parts(e@),
                Err(m) => parser::parse_result(value@) is None && m@ == parse_error_message(
                    parser::parse_stop(value@) as nat,
                    value@.subrange(parser::parse_stop(value@), value@.len() as int),
                ),
            }),
    {
        match parser::expression(value) {
            Ok(e) => Ok(e),
            Err(pe) => Err(pe.message()),
        }
    }

    /// An iterator over every string this pattern denotes: the cartesian
    /// product of its parts' items, the first part varying slowest and the
    /// last fastest.  An empty pattern yields exactly one empty string.
    pub fn into_iter(self) -> (it: ExpressionIterator)
        requires
            model::wf_parts(self@),
        ensures
            it.remaining() == model::expr_items(self@),
    {
        let items = expr_items_vec(&self.0, 0);
        proof {
            let pv = parts_view(self.0@);
            assert(pv.subrange(0, pv.len() as int) =~= pv);
        }
        let it = ExpressionIterator { items, pos: 0 };
        proof {
            assert(it.remaining() =~= items_view(it.items@));
        }
        it
    }
}

} // verus!
