//! Converting various types of ranges. Other range utilities.
//! [`Int`] is a trait for integer numbers.
use std::ops::{Bound, Range, RangeFrom, RangeFull, RangeInclusive, RangeTo, RangeToInclusive};
use vstd::prelude::*;

verus! {

/// `std::ops::Bound`, with its variants.
#[verifier::external_type_specification]
#[verifier::reject_recursive_types(T)]
pub struct ExBound<T>(Bound<T>);

/// Integers.
/// `N: Int` iff for all `x` in `N`:
///
/// - the least `y` such that `y > x` (if it exists) is `x+1`, and
/// - the greatest `y` such that `y < x` (if it exists) is `x-1`.
///
/// Thus `N` stands for the integers from its least to its greatest value.
pub trait Int: Copy {
    /// The integer that the value stands for.
    spec fn as_int(self) -> int;

    /// The integer of the least value.
    spec fn min_int() -> int;

    /// The integer of the greatest value.
    spec fn max_int() -> int;

    /// Every value is between the least and the greatest one.
    proof fn is_bounded(self)
        ensures
            Self::min_int() <= self.as_int() <= Self::max_int(),
    ;

    /// Zero is between the least and the greatest value.
    proof fn zero_is_bounded()
        ensures
            Self::min_int() <= 0 <= Self::max_int(),
    ;

    /// The least value.
    fn min_value() -> (res: Self)
        ensures
            res.as_int() == Self::min_int(),
    ;

    /// The greatest value.
    fn max_value() -> (res: Self)
        ensures
            res.as_int() == Self::max_int(),
    ;

    /// Zero.
    fn zero() -> (res: Self)
        ensures
            res.as_int() == 0,
    ;

    /// The next value.
    fn succ(self) -> (res: Self)
        requires
            self.as_int() < Self::max_int(),
        ensures
            res.as_int() == self.as_int() + 1,
    ;

    /// The previous value.
    fn pred(self) -> (res: Self)
        requires
            self.as_int() > Self::min_int(),
        ensures
            res.as_int() == self.as_int() - 1,
    ;

    /// The difference of two values.
    fn minus(self, other: Self) -> (res: Self)
        requires
            Self::min_int() <= self.as_int() - other.as_int() <= Self::max_int(),
        ensures
            res.as_int() == self.as_int() - other.as_int(),
    ;

    /// Whether a value is at most another one.
    fn at_most(self, other: Self) -> (res: bool)
        ensures
            res == (self.as_int() <= other.as_int()),
    ;
}

impl Int for i8 {
    open spec fn as_int(self) -> int {
        self as int
    }

    open spec fn min_int() -> int {
        i8::MIN as int
    }

    open spec fn max_int() -> int {
        i8::MAX as int
    }

    proof fn is_bounded(self) {
    }

    proof fn zero_is_bounded() {
    }

    fn min_value() -> (res: Self) {
        i8::MIN
    }

    fn max_value() -> (res: Self) {
        i8::MAX
    }

    fn zero() -> (res: Self) {
        0
    }

    fn succ(self) -> (res: Self) {
        self + 1
    }

    fn pred(self) -> (res: Self) {
        self - 1
    }

    fn minus(self, other: Self) -> (res: Self) {
        self - other
    }

    fn at_most(self, other: Self) -> (res: bool) {
        self <= other
    }
}

impl Int for i16 {
    open spec fn as_int(self) -> int {
        self as int
    }

    open spec fn min_int() -> int {
        i16::MIN as int
    }

    open spec fn max_int() -> int {
        i16::MAX as int
    }

    proof fn is_bounded(self) {
    }

    proof fn zero_is_bounded() {
    }

    fn min_value() -> (res: Self) {
        i16::MIN
    }

    fn max_value() -> (res: Self) {
        i16::MAX
    }

    fn zero() -> (res: Self) {
        0
    }

    fn succ(self) -> (res: Self) {
        self + 1
    }

    fn pred(self) -> (res: Self) {
        self - 1
    }

    fn minus(self, other: Self) -> (res: Self) {
        self - other
    }

    fn at_most(self, other: Self) -> (res: bool) {
        self <= other
    }
}

impl Int for i32 {
    open spec fn as_int(self) -> int {
        self as int
    }

    open spec fn min_int() -> int {
        i32::MIN as int
    }

    open spec fn max_int() -> int {
        i32::MAX as int
    }

    proof fn is_bounded(self) {
    }

    proof fn zero_is_bounded() {
    }

    fn min_value() -> (res: Self) {
        i32::MIN
    }

    fn max_value() -> (res: Self) {
        i32::MAX
    }

    fn zero() -> (res: Self) {
        0
    }

    fn succ(self) -> (res: Self) {
        self + 1
    }

    fn pred(self) -> (res: Self) {
        self - 1
    }

    fn minus(self, other: Self) -> (res: Self) {
        self - other
    }

    fn at_most(self, other: Self) -> (res: bool) {
        self <= other
    }
}

impl Int for i64 {
    open spec fn as_int(self) -> int {
        self as int
    }

    open spec fn min_int() -> int {
        i64::MIN as int
    }

    open spec fn max_int() -> int {
        i64::MAX as int
    }

    proof fn is_bounded(self) {
    }

    proof fn zero_is_bounded() {
    }

    fn min_value() -> (res: Self) {
        i64::MIN
    }

    fn max_value() -> (res: Self) {
        i64::MAX
    }

    fn zero() -> (res: Self) {
        0
    }

    fn succ(self) -> (res: Self) {
        self + 1
    }

    fn pred(self) -> (res: Self) {
        self - 1
    }

    fn minus(self, other: Self) -> (res: Self) {
        self - other
    }

    fn at_most(self, other: Self) -> (res: bool) {
        self <= other
    }
}

impl Int for i128 {
    open spec fn as_int(self) -> int {
        self as int
    }

    open spec fn min_int() -> int {
        i128::MIN as int
    }

    open spec fn max_int() -> int {
        i128::MAX as int
    }

    proof fn is_bounded(self) {
    }

    proof fn zero_is_bounded() {
    }

    fn min_value() -> (res: Self) {
        i128::MIN
    }

    fn max_value() -> (res: Self) {
        i128::MAX
    }

    fn zero() -> (res: Self) {
        0
    }

    fn succ(self) -> (res: Self) {
        self + 1
    }

    fn pred(self) -> (res: Self) {
        self - 1
    }

    fn minus(self, other: Self) -> (res: Self) {
        self - other
    }

    fn at_most(self, other: Self) -> (res: bool) {
        self <= other
    }
}

impl Int for isize {
    open spec fn as_int(self) -> int {
        self as int
    }

    open spec fn min_int() -> int {
        isize::MIN as int
    }

    open spec fn max_int() -> int {
        isize::MAX as int
    }

    proof fn is_bounded(self) {
    }

    proof fn zero_is_bounded() {
    }

    fn min_value() -> (res: Self) {
        isize::MIN
    }

    fn max_value() -> (res: Self) {
        isize::MAX
    }

    fn zero() -> (res: Self) {
        0
    }

    fn succ(self) -> (res: Self) {
        self + 1
    }

    fn pred(self) -> (res: Self) {
        self - 1
    }

    fn minus(self, other: Self) -> (res: Self) {
        self - other
    }

    fn at_most(self, other: Self) -> (res: bool) {
        self <= other
    }
}

impl Int for u8 {
    open spec fn as_int(self) -> int {
        self as int
    }

    open spec fn min_int() -> int {
        u8::MIN as int
    }

    open spec fn max_int() -> int {
        u8::MAX as int
    }

    proof fn is_bounded(self) {
    }

    proof fn zero_is_bounded() {
    }

    fn min_value() -> (res: Self) {
        u8::MIN
    }

    fn max_value() -> (res: Self) {
        u8::MAX
    }

    fn zero() -> (res: Self) {
        0
    }

    fn succ(self) -> (res: Self) {
        self + 1
    }

    fn pred(self) -> (res: Self) {
        self - 1
    }

    fn minus(self, other: Self) -> (res: Self) {
        self - other
    }

    fn at_most(self, other: Self) -> (res: bool) {
        self <= other
    }
}

impl Int for u16 {
    open spec fn as_int(self) -> int {
        self as int
    }

    open spec fn min_int() -> int {
        u16::MIN as int
    }

    open spec fn max_int() -> int {
        u16::MAX as int
    }

    proof fn is_bounded(self) {
    }

    proof fn zero_is_bounded() {
    }

    fn min_value() -> (res: Self) {
        u16::MIN
    }

    fn max_value() -> (res: Self) {
        u16::MAX
    }

    fn zero() -> (res: Self) {
        0
    }

    fn succ(self) -> (res: Self) {
        self + 1
    }

    fn pred(self) -> (res: Self) {
        self - 1
    }

    fn minus(self, other: Self) -> (res: Self) {
        self - other
    }

    fn at_most(self, other: Self) -> (res: bool) {
        self <= other
    }
}

impl Int for u32 {
    open spec fn as_int(self) -> int {
        self as int
    }

    open spec fn min_int() -> int {
        u32::MIN as int
    }

    open spec fn max_int() -> int {
        u32::MAX as int
    }

    proof fn is_bounded(self) {
    }

    proof fn zero_is_bounded() {
    }

    fn min_value() -> (res: Self) {
        u32::MIN
    }

    fn max_value() -> (res: Self) {
        u32::MAX
    }

    fn zero() -> (res: Self) {
        0
    }

    fn succ(self) -> (res: Self) {
        self + 1
    }

    fn pred(self) -> (res: Self) {
        self - 1
    }

    fn minus(self, other: Self) -> (res: Self) {
        self - other
    }

    fn at_most(self, other: Self) -> (res: bool) {
        self <= other
    }
}

impl Int for u64 {
    open spec fn as_int(self) -> int {
        self as int
    }

    open spec fn min_int() -> int {
        u64::MIN as int
    }

    open spec fn max_int() -> int {
        u64::MAX as int
    }

    proof fn is_bounded(self) {
    }

    proof fn zero_is_bounded() {
    }

    fn min_value() -> (res: Self) {
        u64::MIN
    }

    fn max_value() -> (res: Self) {
        u64::MAX
    }

    fn zero() -> (res: Self) {
        0
    }

    fn succ(self) -> (res: Self) {
        self + 1
    }

    fn pred(self) -> (res: Self) {
        self - 1
    }

    fn minus(self, other: Self) -> (res: Self) {
        self - other
    }

    fn at_most(self, other: Self) -> (res: bool) {
        self <= other
    }
}

impl Int for u128 {
    open spec fn as_int(self) -> int {
        self as int
    }

    open spec fn min_int() -> int {
        u128::MIN as int
    }

    open spec fn max_int() -> int {
        u128::MAX as int
    }

    proof fn is_bounded(self) {
    }

    proof fn zero_is_bounded() {
    }

    fn min_value() -> (res: Self) {
        u128::MIN
    }

    fn max_value() -> (res: Self) {
        u128::MAX
    }

    fn zero() -> (res: Self) {
        0
    }

    fn succ(self) -> (res: Self) {
        self + 1
    }

    fn pred(self) -> (res: Self) {
        self - 1
    }

    fn minus(self, other: Self) -> (res: Self) {
        self - other
    }

    fn at_most(self, other: Self) -> (res: bool) {
        self <= other
    }
}

impl Int for usize {
    open spec fn as_int(self) -> int {
        self as int
    }

    open spec fn min_int() -> int {
        usize::MIN as int
    }

    open spec fn max_int() -> int {
        usize::MAX as int
    }

    proof fn is_bounded(self) {
    }

    proof fn zero_is_bounded() {
    }

    fn min_value() -> (res: Self) {
        usize::MIN
    }

    fn max_value() -> (res: Self) {
        usize::MAX
    }

    fn zero() -> (res: Self) {
        0
    }

    fn succ(self) -> (res: Self) {
        self + 1
    }

    fn pred(self) -> (res: Self) {
        self - 1
    }

    fn minus(self, other: Self) -> (res: Self) {
        self - other
    }

    fn at_most(self, other: Self) -> (res: bool) {
        self <= other
    }
}

/// `std::num::Wrapping`, with its field.
#[verifier::external_type_specification]
#[verifier::reject_recursive_types(T)]
pub struct ExWrapping<T>(std::num::Wrapping<T>);

impl<N: Int> Int for std::num::Wrapping<N> {
    open spec fn as_int(self) -> int {
        self.0.as_int()
    }

    open spec fn min_int() -> int {
        N::min_int()
    }

    open spec fn max_int() -> int {
        N::max_int()
    }

    proof fn is_bounded(self) {
        self.0.is_bounded();
    }

    proof fn zero_is_bounded() {
        N::zero_is_bounded();
    }

    fn min_value() -> (res: Self) {
        std::num::Wrapping(N::min_value())
    }

    fn max_value() -> (res: Self) {
        std::num::Wrapping(N::max_value())
    }

    fn zero() -> (res: Self) {
        std::num::Wrapping(N::zero())
    }

    fn succ(self) -> (res: Self) {
        std::num::Wrapping(self.0.succ())
    }

    fn pred(self) -> (res: Self) {
        std::num::Wrapping(self.0.pred())
    }

    fn minus(self, other: Self) -> (res: Self) {
        std::num::Wrapping(self.0.minus(other.0))
    }

    fn at_most(self, other: Self) -> (res: bool) {
        self.0.at_most(other.0)
    }
}

/// Whether `x` is greater than the start bound `a`.
pub open spec fn is_after<N: Int>(x: int, a: Bound<N>) -> bool {
    match a {
        Bound::Included(a) => a.as_int() <= x,
        Bound::Excluded(a) => a.as_int() < x,
        Bound::Unbounded => true,
    }
}

/// Whether `x` is less than the end bound `a`.
pub open spec fn is_before<N: Int>(x: int, a: Bound<N>) -> bool {
    match a {
        Bound::Included(a) => x <= a.as_int(),
        Bound::Excluded(a) => x < a.as_int(),
        Bound::Unbounded => true,
    }
}

/// Whether the value `x` of `N` exists.
pub open spec fn is_value<N: Int>(x: int) -> bool {
    N::min_int() <= x <= N::max_int()
}

/// Whether `a` excludes the greatest value.
pub open spec fn excludes_max<N: Int>(a: Bound<N>) -> bool {
    a matches Bound::Excluded(a) && a.as_int() == N::max_int()
}

/// Whether `a` excludes the least value.
pub open spec fn excludes_min<N: Int>(a: Bound<N>) -> bool {
    a matches Bound::Excluded(a) && a.as_int() == N::min_int()
}

/// Returns `b` such that for all `x`, `x` is greater than `a` iff `x >= b`.
/// There is none if `a` is `Excluded(N::max_value())`.
pub fn included_start_bound<N: Int>(a: Bound<N>) -> (res: N)
    requires
        !excludes_max(a),
    ensures
        res.as_int() == match a {
            Bound::Included(a) => a.as_int(),
            Bound::Excluded(a) => a.as_int() + 1,
            Bound::Unbounded => N::min_int(),
        },
        forall|x: int| is_value::<N>(x) ==> (#[trigger] is_after(x, a) <==> x >= res.as_int()),
{
    match a {
        Bound::Included(a) => a,
        Bound::Excluded(a) => {
            proof {
                a.is_bounded();
            }
            a.succ()
        },
        Bound::Unbounded => N::min_value(),
    }
}

/// Returns `b` such that for all `x`, `x` is greater than `a` iff `x > b`.
/// There is none if `a` is `Included(N::min_value())` or `Unbounded`.
pub fn excluded_start_bound<N: Int>(a: Bound<N>) -> (res: N)
    requires
        match a {
            Bound::Included(a) => a.as_int() > N::min_int(),
            Bound::Excluded(a) => true,
            Bound::Unbounded => false,
        },
    ensures
        res.as_int() == match a {
            Bound::Included(a) => a.as_int() - 1,
            Bound::Excluded(a) => a.as_int(),
            Bound::Unbounded => N::min_int(),
        },
        forall|x: int| is_value::<N>(x) ==> (#[trigger] is_after(x, a) <==> x > res.as_int()),
{
    match a {
        Bound::Included(a) => a.pred(),
        Bound::Excluded(a) => a,
        Bound::Unbounded => N::min_value(),
    }
}

/// Returns `b` such that for all `x`, `x` is less than `a` iff `x <= b`.
/// There is none if `a` is `Excluded(N::min_value())`.
pub fn included_end_bound<N: Int>(a: Bound<N>) -> (res: N)
    requires
        !excludes_min(a),
    ensures
        res.as_int() == match a {
            Bound::Included(a) => a.as_int(),
            Bound::Excluded(a) => a.as_int() - 1,
            Bound::Unbounded => N::max_int(),
        },
        forall|x: int| is_value::<N>(x) ==> (#[trigger] is_before(x, a) <==> x <= res.as_int()),
{
    match a {
        Bound::Included(a) => a,
        Bound::Excluded(a) => {
            proof {
                a.is_bounded();
            }
            a.pred()
        },
        Bound::Unbounded => N::max_value(),
    }
}

/// Whether all values are before `a`, the greatest one too.
pub open spec fn includes_max<N: Int>(a: Bound<N>) -> bool {
    match a {
        Bound::Included(a) => a.as_int() == N::max_int(),
        Bound::Excluded(_) => false,
        Bound::Unbounded => true,
    }
}

/// Returns `b` such that for all `x`, `x` is less than `a` iff `x < b`.
/// There is none if `a` is `Included(N::max_value())` or `Unbounded`.
pub fn excluded_end_bound<N: Int>(a: Bound<N>) -> (res: N)
    requires
        !includes_max(a),
    ensures
        res.as_int() == match a {
            Bound::Included(a) => a.as_int() + 1,
            Bound::Excluded(a) => a.as_int(),
            Bound::Unbounded => N::max_int(),
        },
        forall|x: int| is_value::<N>(x) ==> (#[trigger] is_before(x, a) <==> x < res.as_int()),
{
    match a {
        Bound::Included(a) => {
            proof {
                a.is_bounded();
            }
            a.succ()
        },
        Bound::Excluded(a) => a,
        Bound::Unbounded => N::max_value(),
    }
}

/// Ranges with a start bound and an end bound.
pub trait RangeBounds<N: Int> {
    /// Whether the range was not iterated over.
    spec fn is_whole(self) -> bool;

    /// The start bound.
    spec fn lower(self) -> Bound<N>;

    /// The end bound.
    spec fn upper(self) -> Bound<N>;

    /// The start bound.
    fn start_bound(&self) -> (res: Bound<N>)
        requires
            self.is_whole(),
        ensures
            res == self.lower(),
    ;

    /// The end bound.
    fn end_bound(&self) -> (res: Bound<N>)
        requires
            self.is_whole(),
        ensures
            res == self.upper(),
    ;
}

impl<N: Int> RangeBounds<N> for Range<N> {
    open spec fn is_whole(self) -> bool {
        true
    }

    open spec fn lower(self) -> Bound<N> {
        Bound::Included(self.start)
    }

    open spec fn upper(self) -> Bound<N> {
        Bound::Excluded(self.end)
    }

    fn start_bound(&self) -> (res: Bound<N>) {
        Bound::Included(self.start)
    }

    fn end_bound(&self) -> (res: Bound<N>) {
        Bound::Excluded(self.end)
    }
}

impl<N: Int> RangeBounds<N> for RangeInclusive<N> {
    open spec fn is_whole(self) -> bool {
        !self@.exhausted
    }

    open spec fn lower(self) -> Bound<N> {
        Bound::Included(self@.start)
    }

    open spec fn upper(self) -> Bound<N> {
        Bound::Included(self@.end)
    }

    fn start_bound(&self) -> (res: Bound<N>) {
        Bound::Included(*RangeInclusive::start(self))
    }

    fn end_bound(&self) -> (res: Bound<N>) {
        Bound::Included(*RangeInclusive::end(self))
    }
}

/// `std::ops::RangeTo`, with its field.
#[verifier::external_type_specification]
#[verifier::reject_recursive_types(Idx)]
pub struct ExRangeTo<Idx>(RangeTo<Idx>);

impl<N: Int> RangeBounds<N> for RangeTo<N> {
    open spec fn is_whole(self) -> bool {
        true
    }

    open spec fn lower(self) -> Bound<N> {
        Bound::Unbounded
    }

    open spec fn upper(self) -> Bound<N> {
        Bound::Excluded(self.end)
    }

    fn start_bound(&self) -> (res: Bound<N>) {
        Bound::Unbounded
    }

    fn end_bound(&self) -> (res: Bound<N>) {
        Bound::Excluded(self.end)
    }
}

/// `std::ops::RangeFrom`, with its field.
#[verifier::external_type_specification]
#[verifier::reject_recursive_types(Idx)]
pub struct ExRangeFrom<Idx>(RangeFrom<Idx>);

impl<N: Int> RangeBounds<N> for RangeFrom<N> {
    open spec fn is_whole(self) -> bool {
        true
    }

    open spec fn lower(self) -> Bound<N> {
        Bound::Included(self.start)
    }

    open spec fn upper(self) -> Bound<N> {
        Bound::Unbounded
    }

    fn start_bound(&self) -> (res: Bound<N>) {
        Bound::Included(self.start)
    }

    fn end_bound(&self) -> (res: Bound<N>) {
        Bound::Unbounded
    }
}

/// `std::ops::RangeFull`, which has no fields.
#[verifier::external_type_specification]
pub struct ExRangeFull(RangeFull);

impl<N: Int> RangeBounds<N> for RangeFull {
    open spec fn is_whole(self) -> bool {
        true
    }

    open spec fn lower(self) -> Bound<N> {
        Bound::Unbounded
    }

    open spec fn upper(self) -> Bound<N> {
        Bound::Unbounded
    }

    fn start_bound(&self) -> (res: Bound<N>) {
        Bound::Unbounded
    }

    fn end_bound(&self) -> (res: Bound<N>) {
        Bound::Unbounded
    }
}

/// `std::ops::RangeToInclusive`, with its field.
#[verifier::external_type_specification]
#[verifier::reject_recursive_types(Idx)]
pub struct ExRangeToInclusive<Idx>(RangeToInclusive<Idx>);

impl<N: Int> RangeBounds<N> for RangeToInclusive<N> {
    open spec fn is_whole(self) -> bool {
        true
    }

    open spec fn lower(self) -> Bound<N> {
        Bound::Unbounded
    }

    open spec fn upper(self) -> Bound<N> {
        Bound::Included(self.end)
    }

    fn start_bound(&self) -> (res: Bound<N>) {
        Bound::Unbounded
    }

    fn end_bound(&self) -> (res: Bound<N>) {
        Bound::Included(self.end)
    }
}

impl<N: Int> RangeBounds<N> for (Bound<N>, Bound<N>) {
    open spec fn is_whole(self) -> bool {
        true
    }

    open spec fn lower(self) -> Bound<N> {
        self.0
    }

    open spec fn upper(self) -> Bound<N> {
        self.1
    }

    fn start_bound(&self) -> (res: Bound<N>) {
        copy_bound(&self.0)
    }

    fn end_bound(&self) -> (res: Bound<N>) {
        copy_bound(&self.1)
    }
}

/// Copies a bound.
fn copy_bound<N: Int>(a: &Bound<N>) -> (res: Bound<N>)
    ensures
        res == *a,
{
    match a {
        Bound::Included(a) => Bound::Included(*a),
        Bound::Excluded(a) => Bound::Excluded(*a),
        Bound::Unbounded => Bound::Unbounded,
    }
}

/// Whether the value `x` is in `range`.
pub open spec fn is_in<N: Int, R: RangeBounds<N>>(range: R, x: int) -> bool {
    is_value::<N>(x) && is_after(x, range.lower()) && is_before(x, range.upper())
}

/// What is wrong with a range that cannot be converted.
#[derive(Clone, Copy, Debug, PartialEq, Eq, Structural)]
pub enum TryFromRangeError {
    /// The start range bound is too big.
    StartBig,
    /// The end range bound is too small.
    EndSmall,
    /// The end range bound is too big.
    EndBig,
}

/// Types that ranges can be converted to.
pub trait TryFromRange<R>: Sized {
    type Error;

    /// Whether `range` can be handed over.
    spec fn is_argument(range: R) -> bool;

    /// Why `range` cannot be converted.
    spec fn refusal(range: R) -> Option<Self::Error>;

    /// Whether `res` represents the same set as `range`.
    spec fn is_same_set(range: R, res: Self) -> bool;

    /// If it returns `Ok(r)`, then `r` represents the same set as the argument.
    fn try_from_range(range_bounds: R) -> (res: Result<Self, Self::Error>)
        requires
            Self::is_argument(range_bounds),
        ensures
            match res {
                Ok(r) => Self::refusal(range_bounds) is None && Self::is_same_set(range_bounds, r),
                Err(e) => Self::refusal(range_bounds) == Some(e),
            },
    ;
}

impl<N: Int, R: RangeBounds<N>> TryFromRange<R> for RangeInclusive<N> {
    type Error = TryFromRangeError;

    open spec fn is_argument(range: R) -> bool {
        range.is_whole()
    }

    open spec fn refusal(range: R) -> Option<TryFromRangeError> {
        if excludes_max(range.lower()) {
            Some(TryFromRangeError::StartBig)
        } else if excludes_min(range.upper()) {
            Some(TryFromRangeError::EndSmall)
        } else {
            None
        }
    }

    open spec fn is_same_set(range: R, res: Self) -> bool {
        &&& !res@.exhausted
        &&& forall|x: int|
            is_value::<N>(x) ==> (#[trigger] is_in(range, x) <==> res@.start.as_int() <= x
                <= res@.end.as_int())
    }

    fn try_from_range(range_bounds: R) -> (res: Result<Self, TryFromRangeError>)
        ensures
            res matches Ok(r) ==> {
                &&& r@.start.as_int() == match range_bounds.lower() {
                    Bound::Included(a) => a.as_int(),
                    Bound::Excluded(a) => a.as_int() + 1,
                    Bound::Unbounded => N::min_int(),
                }
                &&& r@.end.as_int() == match range_bounds.upper() {
                    Bound::Included(a) => a.as_int(),
                    Bound::Excluded(a) => a.as_int() - 1,
                    Bound::Unbounded => N::max_int(),
                }
            },
    {
        let start_bound = range_bounds.start_bound();
        if is_excluded(&start_bound, N::max_value()) {
            return Err(TryFromRangeError::StartBig);
        }
        let end_bound = range_bounds.end_bound();
        if is_excluded(&end_bound, N::min_value()) {
            return Err(TryFromRangeError::EndSmall);
        }
        let start = included_start_bound(start_bound);
        let end = included_end_bound(end_bound);
        let res = RangeInclusive::new(start, end);
        assert forall|x: int| is_value::<N>(x) implies (#[trigger] is_in(range_bounds, x) <==> start.as_int()
            <= x <= end.as_int()) by {
            assert(is_after(x, range_bounds.lower()) <==> x >= start.as_int());
            assert(is_before(x, range_bounds.upper()) <==> x <= end.as_int());
        }
        Ok(res)
    }
}

/// Whether `a` excludes `x`.
fn is_excluded<N: Int>(a: &Bound<N>, x: N) -> (res: bool)
    ensures
        res == (a matches Bound::Excluded(b) && b.as_int() == x.as_int()),
{
    match a {
        Bound::Excluded(b) => b.at_most(x) && x.at_most(*b),
        _ => false,
    }
}

impl<N: Int, R: RangeBounds<N>> TryFromRange<R> for Range<N> {
    type Error = TryFromRangeError;

    open spec fn is_argument(range: R) -> bool {
        range.is_whole()
    }

    open spec fn refusal(range: R) -> Option<TryFromRangeError> {
        if excludes_max(range.lower()) {
            Some(TryFromRangeError::StartBig)
        } else if includes_max(range.upper()) {
            Some(TryFromRangeError::EndBig)
        } else {
            None
        }
    }

    open spec fn is_same_set(range: R, res: Self) -> bool {
        forall|x: int|
            is_value::<N>(x) ==> (#[trigger] is_in(range, x) <==> res.start.as_int() <= x
                < res.end.as_int())
    }

    fn try_from_range(range_bounds: R) -> (res: Result<Self, TryFromRangeError>)
        ensures
            res matches Ok(r) ==> {
                &&& r.start.as_int() == match range_bounds.lower() {
                    Bound::Included(a) => a.as_int(),
                    Bound::Excluded(a) => a.as_int() + 1,
                    Bound::Unbounded => N::min_int(),
                }
                &&& r.end.as_int() == match range_bounds.upper() {
                    Bound::Included(a) => a.as_int() + 1,
                    Bound::Excluded(a) => a.as_int(),
                    Bound::Unbounded => N::max_int(),
                }
            },
    {
        let start_bound = range_bounds.start_bound();
        if is_excluded(&start_bound, N::max_value()) {
            return Err(TryFromRangeError::StartBig);
        }
        let end_bound = range_bounds.end_bound();
        let is_end_max: bool = match &end_bound {
            Bound::Unbounded => true,
            Bound::Included(a) => {
                proof {
                    a.is_bounded();
                }
                N::max_value().at_most(*a)
            },
            Bound::Excluded(_) => false,
        };
        if is_end_max {
            return Err(TryFromRangeError::EndBig);
        }
        let start = included_start_bound(start_bound);
        let end = excluded_end_bound(end_bound);
        assert forall|x: int| is_value::<N>(x) implies (#[trigger] is_in(range_bounds, x) <==> start.as_int()
            <= x < end.as_int()) by {
            assert(is_after(x, range_bounds.lower()) <==> x >= start.as_int());
            assert(is_before(x, range_bounds.upper()) <==> x < end.as_int());
        }
        Ok(start..end)
    }
}

/// The length of a `range`.
pub fn range_len<N: Int>(range: Range<N>) -> (res: N)
    requires
        range.end.as_int() - range.start.as_int() <= N::max_int(),
    ensures
        res.as_int() == if range.start.as_int() < range.end.as_int() {
            range.end.as_int() - range.start.as_int()
        } else {
            0
        },
{
    proof {
        N::zero_is_bounded();
    }
    if range.end.at_most(range.start) {
        N::zero()
    } else {
        range.end.minus(range.start)
    }
}

} // verus!
