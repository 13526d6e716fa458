//! The range engine: an inclusive walk from a start value to an end value in
//! steps of a fixed positive magnitude, over an unsigned "proxy" position
//! domain shared by the integer and character item types.
use vstd::prelude::*;

verus! {

/// The positions an inclusive range walk visits: starting at `cur`, stepping
/// by `incr` toward `end`, and stopping before crossing past `end`.  A step
/// magnitude below one walks nowhere.
pub open spec fn walk(cur: int, end: int, incr: int) -> Seq<int>
    decreases (if cur <= end { end - cur } else { cur - end }),
{
    if incr < 1 {
        Seq::empty()
    } else if cur == end {
        seq![cur]
    } else if cur < end {
        if cur + incr <= end {
            seq![cur] + walk(cur + incr, end, incr)
        } else {
            seq![cur]
        }
    } else {
        if cur - incr >= end {
            seq![cur] + walk(cur - incr, end, incr)
        } else {
            seq![cur]
        }
    }
}

/// Whether `v` is a valid Unicode scalar value: a code point outside the
/// UTF-16 surrogate block and at most 0x10FFFF.
pub open spec fn is_unicode_scalar(v: int) -> bool {
    (0 <= v && v < 0xD800) || (0xE000 <= v && v <= 0x10FFFF)
}

/// Relies on char::from_u32: returns Some exactly when the code point is a
/// valid Unicode scalar value, and the character has that code point.
#[verifier::external_body]
fn char_from_u32(u: u32) -> (r: Option<char>)
    ensures
        r is Some <==> is_unicode_scalar(u as int),
        r matches Some(c) ==> c as u32 == u,
{
    char::from_u32(u)
}

/// Uniform checked addition and subtraction of an unsigned increment, so that
/// one stepping algorithm serves signed, unsigned and code-point carriers.
pub trait CheckedAddSub: Sized + Copy {
    type Arithmetic: Copy;

    /// The carried value as a mathematical integer.
    spec fn val(self) -> int;

    /// The increment as a mathematical integer.
    spec fn arith_val(a: Self::Arithmetic) -> int;

    /// The smallest value the carrier type can hold.
    spec fn min_val() -> int;

    /// The largest value the carrier type can hold.
    spec fn max_val() -> int;

    proof fn lemma_val_bounds(self)
        ensures
            Self::min_val() <= self.val() <= Self::max_val();

    proof fn lemma_arith_nonneg(a: Self::Arithmetic)
        ensures
            Self::arith_val(a) >= 0;

    fn checked_add(self, rhs: Self::Arithmetic) -> (r: Option<Self>)
        ensures
            r is Some <==> self.val() + Self::arith_val(rhs) <= Self::max_val(),
            r matches Some(v) ==> v.val() == self.val() + Self::arith_val(rhs);

    fn checked_sub(self, rhs: Self::Arithmetic) -> (r: Option<Self>)
        ensures
            r is Some <==> self.val() - Self::arith_val(rhs) >= Self::min_val(),
            r matches Some(v) ==> v.val() == self.val() - Self::arith_val(rhs);

    fn val_lt(self, other: Self) -> (r: bool)
        ensures
            r == (self.val() < other.val());

    fn val_gt(self, other: Self) -> (r: bool)
        ensures
            r == (self.val() > other.val());
}

/// A type a range can be made of.  In this crate that is `i64` or `char`,
/// but any carrier with an unsigned-stepped proxy position works.
pub trait SequenceItem: Sized + Copy {
    type Arithmetic: Copy;

    /// The proxy position domain the walk steps through.
    type Proxy: CheckedAddSub<Arithmetic = Self::Arithmetic> + Copy;

    /// The item's position in the proxy domain.
    spec fn item_val(self) -> int;

    /// Which proxy positions convert back into an item.
    spec fn proxy_ok(v: int) -> bool;

    fn into_proxy(self) -> (p: Self::Proxy)
        ensures
            p.val() == self.item_val();

    fn try_from_proxy(p: Self::Proxy) -> (r: Option<Self>)
        ensures
            r is Some <==> Self::proxy_ok(p.val()),
            r matches Some(x) ==> x.item_val() == p.val();
}

impl CheckedAddSub for i64 {
    type Arithmetic = u64;

    open spec fn val(self) -> int {
        self as int
    }

    open spec fn arith_val(a: u64) -> int {
        a as int
    }

    open spec fn min_val() -> int {
        i64::MIN as int
    }

    open spec fn max_val() -> int {
        i64::MAX as int
    }

    proof fn lemma_val_bounds(self) {
    }

    proof fn lemma_arith_nonneg(a: u64) {
    }

    fn checked_add(self, rhs: u64) -> (r: Option<i64>) {
        self.checked_add_unsigned(rhs)
    }

    fn checked_sub(self, rhs: u64) -> (r: Option<i64>) {
        self.checked_sub_unsigned(rhs)
    }

    fn val_lt(self, other: i64) -> (r: bool) {
        self < other
    }

    fn val_gt(self, other: i64) -> (r: bool) {
        self > other
    }
}

impl CheckedAddSub for u32 {
    type Arithmetic = u32;

    open spec fn val(self) -> int {
        self as int
    }

    open spec fn arith_val(a: u32) -> int {
        a as int
    }

    open spec fn min_val() -> int {
        0
    }

    open spec fn max_val() -> int {
        u32::MAX as int
    }

    proof fn lemma_val_bounds(self) {
    }

    proof fn lemma_arith_nonneg(a: u32) {
    }

    fn checked_add(self, rhs: u32) -> (r: Option<u32>) {
        self.checked_add(rhs)
    }

    fn checked_sub(self, rhs: u32) -> (r: Option<u32>) {
        self.checked_sub(rhs)
    }

    fn val_lt(self, other: u32) -> (r: bool) {
        self < other
    }

    fn val_gt(self, other: u32) -> (r: bool) {
        self > other
    }
}

impl CheckedAddSub for isize {
    type Arithmetic = usize;

    open spec fn val(self) -> int {
        self as int
    }

    open spec fn arith_val(a: usize) -> int {
        a as int
    }

    open spec fn min_val() -> int {
        isize::MIN as int
    }

    open spec fn max_val() -> int {
        isize::MAX as int
    }

    proof fn lemma_val_bounds(self) {
    }

    proof fn lemma_arith_nonneg(a: usize) {
    }

    fn checked_add(self, rhs: usize) -> (r: Option<isize>) {
        self.checked_add_unsigned(rhs)
    }

    fn checked_sub(self, rhs: usize) -> (r: Option<isize>) {
        self.checked_sub_unsigned(rhs)
    }

    fn val_lt(self, other: isize) -> (r: bool) {
        self < other
    }

    fn val_gt(self, other: isize) -> (r: bool) {
        self > other
    }
}

impl CheckedAddSub for i32 {
    type Arithmetic = u32;

    open spec fn val(self) -> int {
        self as int
    }

    open spec fn arith_val(a: u32) -> int {
        a as int
    }

    open spec fn min_val() -> int {
        i32::MIN as int
    }

    open spec fn max_val() -> int {
        i32::MAX as int
    }

    proof fn lemma_val_bounds(self) {
    }

    proof fn lemma_arith_nonneg(a: u32) {
    }

    fn checked_add(self, rhs: u32) -> (r: Option<i32>) {
        self.checked_add_unsigned(rhs)
    }

    fn checked_sub(self, rhs: u32) -> (r: Option<i32>) {
        self.checked_sub_unsigned(rhs)
    }

    fn val_lt(self, other: i32) -> (r: bool) {
        self < other
    }

    fn val_gt(self, other: i32) -> (r: bool) {
        self > other
    }
}

impl CheckedAddSub for i16 {
    type Arithmetic = u16;

    open spec fn val(self) -> int {
        self as int
    }

    open spec fn arith_val(a: u16) -> int {
        a as int
    }

    open spec fn min_val() -> int {
        i16::MIN as int
    }

    open spec fn max_val() -> int {
        i16::MAX as int
    }

    proof fn lemma_val_bounds(self) {
    }

    proof fn lemma_arith_nonneg(a: u16) {
    }

    fn checked_add(self, rhs: u16) -> (r: Option<i16>) {
        self.checked_add_unsigned(rhs)
    }

    fn checked_sub(self, rhs: u16) -> (r: Option<i16>) {
        self.checked_sub_unsigned(rhs)
    }

    fn val_lt(self, other: i16) -> (r: bool) {
        self < other
    }

    fn val_gt(self, other: i16) -> (r: bool) {
        self > other
    }
}

impl CheckedAddSub for i8 {
    type Arithmetic = u8;

    open spec fn val(self) -> int {
        self as int
    }

    open spec fn arith_val(a: u8) -> int {
        a as int
    }

    open spec fn min_val() -> int {
        i8::MIN as int
    }

    open spec fn max_val() -> int {
        i8::MAX as int
    }

    proof fn lemma_val_bounds(self) {
    }

    proof fn lemma_arith_nonneg(a: u8) {
    }

    fn checked_add(self, rhs: u8) -> (r: Option<i8>) {
        self.checked_add_unsigned(rhs)
    }

    fn checked_sub(self, rhs: u8) -> (r: Option<i8>) {
        self.checked_sub_unsigned(rhs)
    }

    fn val_lt(self, other: i8) -> (r: bool) {
        self < other
    }

    fn val_gt(self, other: i8) -> (r: bool) {
        self > other
    }
}

impl CheckedAddSub for usize {
    type Arithmetic = usize;

    open spec fn val(self) -> int {
        self as int
    }

    open spec fn arith_val(a: usize) -> int {
        a as int
    }

    open spec fn min_val() -> int {
        0
    }

    open spec fn max_val() -> int {
        usize::MAX as int
    }

    proof fn lemma_val_bounds(self) {
    }

    proof fn lemma_arith_nonneg(a: usize) {
    }

    fn checked_add(self, rhs: usize) -> (r: Option<usize>) {
        self.checked_add(rhs)
    }

    fn checked_sub(self, rhs: usize) -> (r: Option<usize>) {
        self.checked_sub(rhs)
    }

    fn val_lt(self, other: usize) -> (r: bool) {
        self < other
    }

    fn val_gt(self, other: usize) -> (r: bool) {
        self > other
    }
}

impl CheckedAddSub for u64 {
    type Arithmetic = u64;

    open spec fn val(self) -> int {
        self as int
    }

    open spec fn arith_val(a: u64) -> int {
        a as int
    }

    open spec fn min_val() -> int {
        0
    }

    open spec fn max_val() -> int {
        u64::MAX as int
    }

    proof fn lemma_val_bounds(self) {
    }

    proof fn lemma_arith_nonneg(a: u64) {
    }

    fn checked_add(self, rhs: u64) -> (r: Option<u64>) {
        self.checked_add(rhs)
    }

    fn checked_sub(self, rhs: u64) -> (r: Option<u64>) {
        self.checked_sub(rhs)
    }

    fn val_lt(self, other: u64) -> (r: bool) {
        self < other
    }

    fn val_gt(self, other: u64) -> (r: bool) {
        self > other
    }
}

impl CheckedAddSub for u16 {
    type Arithmetic = u16;

    open spec fn val(self) -> int {
        self as int
    }

    open spec fn arith_val(a: u16) -> int {
        a as int
    }

    open spec fn min_val() -> int {
        0
    }

    open spec fn max_val() -> int {
        u16::MAX as int
    }

    proof fn lemma_val_bounds(self) {
    }

    proof fn lemma_arith_nonneg(a: u16) {
    }

    fn checked_add(self, rhs: u16) -> (r: Option<u16>) {
        self.checked_add(rhs)
    }

    fn checked_sub(self, rhs: u16) -> (r: Option<u16>) {
        self.checked_sub(rhs)
    }

    fn val_lt(self, other: u16) -> (r: bool) {
        self < other
    }

    fn val_gt(self, other: u16) -> (r: bool) {
        self > other
    }
}

impl CheckedAddSub for u8 {
    type Arithmetic = u8;

    open spec fn val(self) -> int {
        self as int
    }

    open spec fn arith_val(a: u8) -> int {
        a as int
    }

    open spec fn min_val() -> int {
        0
    }

    open spec fn max_val() -> int {
        u8::MAX as int
    }

    proof fn lemma_val_bounds(self) {
    }

    proof fn lemma_arith_nonneg(a: u8) {
    }

    fn checked_add(self, rhs: u8) -> (r: Option<u8>) {
        self.checked_add(rhs)
    }

    fn checked_sub(self, rhs: u8) -> (r: Option<u8>) {
        self.checked_sub(rhs)
    }

    fn val_lt(self, other: u8) -> (r: bool) {
        self < other
    }

    fn val_gt(self, other: u8) -> (r: bool) {
        self > other
    }
}

impl SequenceItem for i64 {
    type Arithmetic = u64;

    type Proxy = i64;

    open spec fn item_val(self) -> int {
        self as int
    }

    open spec fn proxy_ok(v: int) -> bool {
        true
    }

    fn into_proxy(self) -> (p: i64) {
        self
    }

    fn try_from_proxy(p: i64) -> (r: Option<i64>) {
        Some(p)
    }
}

impl SequenceItem for isize {
    type Arithmetic = usize;

    type Proxy = isize;

    open spec fn item_val(self) -> int {
        self as int
    }

    open spec fn proxy_ok(v: int) -> bool {
        true
    }

    fn into_proxy(self) -> (p: isize) {
        self
    }

    fn try_from_proxy(p: isize) -> (r: Option<isize>) {
        Some(p)
    }
}

impl SequenceItem for i32 {
    type Arithmetic = u32;

    type Proxy = i32;

    open spec fn item_val(self) -> int {
        self as int
    }

    open spec fn proxy_ok(v: int) -> bool {
        true
    }

    fn into_proxy(self) -> (p: i32) {
        self
    }

    fn try_from_proxy(p: i32) -> (r: Option<i32>) {
        Some(p)
    }
}

impl SequenceItem for i16 {
    type Arithmetic = u16;

    type Proxy = i16;

    open spec fn item_val(self) -> int {
        self as int
    }

    open spec fn proxy_ok(v: int) -> bool {
        true
    }

    fn into_proxy(self) -> (p: i16) {
        self
    }

    fn try_from_proxy(p: i16) -> (r: Option<i16>) {
        Some(p)
    }
}

impl SequenceItem for i8 {
    type Arithmetic = u8;

    type Proxy = i8;

    open spec fn item_val(self) -> int {
        self as int
    }

    open spec fn proxy_ok(v: int) -> bool {
        true
    }

    fn into_proxy(self) -> (p: i8) {
        self
    }

    fn try_from_proxy(p: i8) -> (r: Option<i8>) {
        Some(p)
    }
}

impl SequenceItem for usize {
    type Arithmetic = usize;

    type Proxy = usize;

    open spec fn item_val(self) -> int {
        self as int
    }

    open spec fn proxy_ok(v: int) -> bool {
        true
    }

    fn into_proxy(self) -> (p: usize) {
        self
    }

    fn try_from_proxy(p: usize) -> (r: Option<usize>) {
        Some(p)
    }
}

impl SequenceItem for u64 {
    type Arithmetic = u64;

    type Proxy = u64;

    open spec fn item_val(self) -> int {
        self as int
    }

    open spec fn proxy_ok(v: int) -> bool {
        true
    }

    fn into_proxy(self) -> (p: u64) {
        self
    }

    fn try_from_proxy(p: u64) -> (r: Option<u64>) {
        Some(p)
    }
}

impl SequenceItem for u32 {
    type Arithmetic = u32;

    type Proxy = u32;

    open spec fn item_val(self) -> int {
        self as int
    }

    open spec fn proxy_ok(v: int) -> bool {
        true
    }

    fn into_proxy(self) -> (p: u32) {
        self
    }

    fn try_from_proxy(p: u32) -> (r: Option<u32>) {
        Some(p)
    }
}

impl SequenceItem for u16 {
    type Arithmetic = u16;

    type Proxy = u16;

    open spec fn item_val(self) -> int {
        self as int
    }

    open spec fn proxy_ok(v: int) -> bool {
        true
    }

    fn into_proxy(self) -> (p: u16) {
        self
    }

    fn try_from_proxy(p: u16) -> (r: Option<u16>) {
        Some(p)
    }
}

impl SequenceItem for u8 {
    type Arithmetic = u8;

    type Proxy = u8;

    open spec fn item_val(self) -> int {
        self as int
    }

    open spec fn proxy_ok(v: int) -> bool {
        true
    }

    fn into_proxy(self) -> (p: u8) {
        self
    }

    fn try_from_proxy(p: u8) -> (r: Option<u8>) {
        Some(p)
    }
}

impl SequenceItem for char {
    type Arithmetic = u32;

    type Proxy = u32;

    open spec fn item_val(self) -> int {
        (self as u32) as int
    }

    open spec fn proxy_ok(v: int) -> bool {
        is_unicode_scalar(v)
    }

    fn into_proxy(self) -> (p: u32) {
        self as u32
    }

    fn try_from_proxy(p: u32) -> (r: Option<char>) {
        char_from_u32(p)
    }
}

/// A range with a start point, an end point and a step magnitude.
#[derive(Clone, Copy, Debug)]
pub struct Sequence<T: SequenceItem> {
    pub start: T,
    pub end: T,
    pub incr: T::Arithmetic,
}

/// A walk in progress: the next proxy position to yield, if any, the end
/// position, and the step magnitude.
#[derive(Clone, Copy, Debug)]
pub struct SequenceIterator<T: SequenceItem> {
    next: Option<T::Proxy>,
    end: T::Proxy,
    incr: T::Arithmetic,
}

impl<T: SequenceItem> Sequence<T> {
    /// The proxy positions this range visits, in order.
    pub open spec fn positions(self) -> Seq<int> {
        walk(self.start.item_val(), self.end.item_val(), T::Proxy::arith_val(self.incr))
    }

    /// The step magnitude as a mathematical integer.
    pub open spec fn step_val(self) -> int {
        T::Proxy::arith_val(self.incr)
    }

    pub fn into_iter(self) -> (it: SequenceIterator<T>)
        ensures
            it.remaining() == self.positions(),
            it.step_val() == self.step_val(),
    {
        SequenceIterator { next: Some(self.start.into_proxy()), end: self.end.into_proxy(), incr: self.incr }
    }
}

impl<T: SequenceItem> SequenceIterator<T> {
    /// The proxy positions still to be yielded.
    pub closed spec fn remaining(self) -> Seq<int> {
        match self.next {
            Some(p) => walk(p.val(), self.end.val(), T::Proxy::arith_val(self.incr)),
            None => Seq::empty(),
        }
    }

    /// The step magnitude as a mathematical integer.
    pub closed spec fn step_val(self) -> int {
        T::Proxy::arith_val(self.incr)
    }

    /// Yields the item at the current position, or None when the walk is
    /// done.  A position that is no valid item yields an error in its place
    /// and the walk still advances past it.
    pub fn next(&mut self) -> (r: Option<Result<T, crate::CharTryFromError>>)
        requires
            old(self).step_val() >= 1,
        ensures
            final(self).step_val() == old(self).step_val(),
            r is Some <==> old(self).remaining().len() > 0,
            r is None ==> final(self).remaining() == old(self).remaining(),
            r matches Some(item) ==> {
                &&& final(self).remaining() == old(self).remaining().drop_first()
                &&& (match item {
                    Ok(x) => T::proxy_ok(old(self).remaining()[0]) && x.item_val()
                        == old(self).remaining()[0],
                    Err(_) => !T::proxy_ok(old(self).remaining()[0]),
                })
            },
    {
        let next = self.next;
        match next {
            None => None,
            Some(p) => {
                proof {
                    p.lemma_val_bounds();
                    self.end.lemma_val_bounds();
                    T::Proxy::lemma_arith_nonneg(self.incr);
                }
                self.next = if p.val_lt(self.end) {
                    // Going upwards: add the increment, stop past the end.
                    match p.checked_add(self.incr) {
                        Some(n) => if n.val_gt(self.end) {
                            None
                        } else {
                            Some(n)
                        },
                        None => None,
                    }
                } else if p.val_gt(self.end) {
                    // Going downwards: subtract the increment, stop past the end.
                    match p.checked_sub(self.incr) {
                        Some(n) => if n.val_lt(self.end) {
                            None
                        } else {
                            Some(n)
                        },
                        None => None,
                    }
                } else {
                    None
                };
                match T::try_from_proxy(p) {
                    Some(x) => Some(Ok(x)),
                    None => Some(Err(crate::CharTryFromError)),
                }
            },
        }
    }
}

} // verus!
