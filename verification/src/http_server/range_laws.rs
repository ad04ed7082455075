//! What holds of integers and of converting ranges.
use crate::http_server::range_conv::{
    is_in, is_value, Int, TryFromRange, TryFromRangeError,
};
use std::ops::{Bound, Range, RangeFrom, RangeFull, RangeInclusive, RangeTo, RangeToInclusive};
use vstd::prelude::*;

verus! {

/// Signed integers stand for themselves, from the least to the greatest.
pub proof fn signed_integers_stand_for_themselves(
    a: i8,
    b: i16,
    c: i32,
    d: i64,
    e: i128,
    f: isize,
    x: int,
)
    ensures
        a.as_int() == a && b.as_int() == b && c.as_int() == c,
        d.as_int() == d && e.as_int() == e && f.as_int() == f,
        is_value::<i8>(x) <==> i8::MIN <= x <= i8::MAX,
        is_value::<i16>(x) <==> i16::MIN <= x <= i16::MAX,
        is_value::<i32>(x) <==> i32::MIN <= x <= i32::MAX,
        is_value::<i64>(x) <==> i64::MIN <= x <= i64::MAX,
        is_value::<i128>(x) <==> i128::MIN <= x <= i128::MAX,
        is_value::<isize>(x) <==> isize::MIN <= x <= isize::MAX,
{
}

/// Unsigned integers stand for themselves, from the least to the greatest.
pub proof fn unsigned_integers_stand_for_themselves(
    a: u8,
    b: u16,
    c: u32,
    d: u64,
    e: u128,
    f: usize,
    x: int,
)
    ensures
        a.as_int() == a && b.as_int() == b && c.as_int() == c,
        d.as_int() == d && e.as_int() == e && f.as_int() == f,
        is_value::<u8>(x) <==> 0 <= x <= u8::MAX,
        is_value::<u16>(x) <==> 0 <= x <= u16::MAX,
        is_value::<u32>(x) <==> 0 <= x <= u32::MAX,
        is_value::<u64>(x) <==> 0 <= x <= u64::MAX,
        is_value::<u128>(x) <==> 0 <= x <= u128::MAX,
        is_value::<usize>(x) <==> 0 <= x <= usize::MAX,
{
}

/// A wrapping integer stands for the integer in it.
pub proof fn wrapping_integer_stands_for_its_value<N: Int>(a: std::num::Wrapping<N>, x: int)
    ensures
        a.as_int() == a.0.as_int(),
        is_value::<std::num::Wrapping<N>>(x) <==> is_value::<N>(x),
{
}

/// A range with both ends holds what is not before its start and before its end,
/// an inclusive one also its end.
pub proof fn bounded_range_holds<N: Int>(a: Range<N>, b: RangeInclusive<N>, x: int)
    requires
        is_value::<N>(x),
    ensures
        is_in::<N, Range<N>>(a, x) <==> a.start.as_int() <= x < a.end.as_int(),
        is_in::<N, RangeInclusive<N>>(b, x) <==> b@.start.as_int() <= x <= b@.end.as_int(),
{
}

/// A range without a start or without an end holds all values on this side.
pub proof fn unbounded_range_holds<N: Int>(
    a: RangeTo<N>,
    b: RangeFrom<N>,
    c: RangeFull,
    d: RangeToInclusive<N>,
    x: int,
)
    requires
        is_value::<N>(x),
    ensures
        is_in::<N, RangeTo<N>>(a, x) <==> x < a.end.as_int(),
        is_in::<N, RangeFrom<N>>(b, x) <==> b.start.as_int() <= x,
        is_in::<N, RangeFull>(c, x),
        is_in::<N, RangeToInclusive<N>>(d, x) <==> x <= d.end.as_int(),
{
}

/// A pair of bounds holds what is after the first and before the second.
pub proof fn pair_of_bounds_holds<N: Int>(a: Bound<N>, b: Bound<N>, x: int)
    requires
        is_value::<N>(x),
    ensures
        is_in::<N, (Bound<N>, Bound<N>)>((a, b), x) <==> (match a {
            Bound::Included(s) => s.as_int() <= x,
            Bound::Excluded(s) => s.as_int() < x,
            Bound::Unbounded => true,
        }) && (match b {
            Bound::Included(e) => x <= e.as_int(),
            Bound::Excluded(e) => x < e.as_int(),
            Bound::Unbounded => true,
        }),
{
}

/// A range can be converted unless a bound of the result would not exist:
/// the start after the greatest value, the end before the least value
/// or, for a range without its end, the end after the greatest value.
pub proof fn ranges_are_converted<N: Int>(a: Bound<N>, b: Bound<N>)
    ensures
        ({
            let starts_big = a matches Bound::Excluded(s) && s.as_int() == N::max_int();
            let ends_small = b matches Bound::Excluded(e) && e.as_int() == N::min_int();
            let ends_big = match b {
                Bound::Included(e) => e.as_int() == N::max_int(),
                Bound::Excluded(_) => false,
                Bound::Unbounded => true,
            };
            &&& <Range<N> as TryFromRange<(Bound<N>, Bound<N>)>>::refusal((a, b))
                == if starts_big {
                Some(TryFromRangeError::StartBig)
            } else if ends_big {
                Some(TryFromRangeError::EndBig)
            } else {
                None
            }
            &&& <RangeInclusive<N> as TryFromRange<(Bound<N>, Bound<N>)>>::refusal((a, b))
                == if starts_big {
                Some(TryFromRangeError::StartBig)
            } else if ends_small {
                Some(TryFromRangeError::EndSmall)
            } else {
                None
            }
        }),
{
}

/// What a range is converted to holds the same values.
pub proof fn converted_range_holds_the_same<N: Int>(
    a: Bound<N>,
    b: Bound<N>,
    r: Range<N>,
    s: RangeInclusive<N>,
    x: int,
)
    requires
        is_value::<N>(x),
    ensures
        <Range<N> as TryFromRange<(Bound<N>, Bound<N>)>>::is_same_set((a, b), r) ==> (is_in::<
            N,
            (Bound<N>, Bound<N>),
        >((a, b), x) <==> r.start.as_int() <= x < r.end.as_int()),
        <RangeInclusive<N> as TryFromRange<(Bound<N>, Bound<N>)>>::is_same_set((a, b), s)
            ==> !s@.exhausted && (is_in::<N, (Bound<N>, Bound<N>)>((a, b), x) <==> s@.start.as_int()
            <= x <= s@.end.as_int()),
{
    assert(is_in::<N, (Bound<N>, Bound<N>)>((a, b), x) == is_in::<N, (Bound<N>, Bound<N>)>(
        (a, b),
        x,
    ));
}

} // verus!
