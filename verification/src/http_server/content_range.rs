//! The Content-Range HTTP header.
use crate::text::{decimal, push_decimal};
use std::ops::RangeInclusive;
use vstd::prelude::*;
use vstd::string::*;

verus! {

/// The Content-Range HTTP header with unit "bytes".
pub enum ContentRange {
    /// The response holds a range of the content.
    Satisfied {
        /// The range.
        range: RangeInclusive<u64>,
        /// The length of the content.
        complete_length: Option<u64>,
    },
    /// The range that the request asks for is not in the content.
    Unsatisfied {
        /// The length of the content.
        complete_length: u64,
    },
}

/// `RangeInclusive::start`: the lower bound of a range that is not iterated over to its end.
pub assume_specification<Idx>[ RangeInclusive::<Idx>::start ](range: &RangeInclusive<Idx>) -> (res:
    &Idx)
    ensures
        !range@.exhausted ==> *res == range@.start,
;

/// `RangeInclusive::end`: the upper bound of a range that is not iterated over to its end.
pub assume_specification<Idx>[ RangeInclusive::<Idx>::end ](range: &RangeInclusive<Idx>) -> (res:
    &Idx)
    ensures
        !range@.exhausted ==> *res == range@.end,
;

/// The value of the header for the bytes from `first` to `last` of the content.
pub open spec fn satisfied_text(first: nat, last: nat, complete_length: Option<u64>) -> Seq<char> {
    "bytes "@ + decimal(first) + "-"@ + decimal(last) + "/"@ + match complete_length {
        None => "*"@,
        Some(length) => decimal(length as nat),
    }
}

/// The value of the header for a range that is not in the content.
pub open spec fn unsatisfied_text(complete_length: u64) -> Seq<char> {
    "bytes "@ + "*/"@ + decimal(complete_length as nat)
}

impl ContentRange {
    /// The value of the header as text.
    pub open spec fn text(self) -> Seq<char> {
        match self {
            ContentRange::Satisfied { range, complete_length } => satisfied_text(
                range@.start as nat,
                range@.end as nat,
                complete_length,
            ),
            ContentRange::Unsatisfied { complete_length } => unsatisfied_text(complete_length),
        }
    }

    /// Renders the value of the header.
    pub fn to_string(&self) -> (res: String)
        requires
            self matches ContentRange::Satisfied { range, .. } ==> !range@.exhausted,
        ensures
            res@ == self.text(),
    {
        let mut out = String::from_str("bytes ");
        match self {
            ContentRange::Satisfied { range, complete_length } => {
                push_decimal(&mut out, *range.start());
                out.append("-");
                push_decimal(&mut out, *range.end());
                out.append("/");
                match complete_length {
                    None => out.append("*"),
                    Some(length) => push_decimal(&mut out, *length),
                }
            },
            ContentRange::Unsatisfied { complete_length } => {
                out.append("*/");
                push_decimal(&mut out, *complete_length);
            },
        }
        out
    }
}

} // verus!
