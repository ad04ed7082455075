//! The Range HTTP header.
use crate::http_server::range_conv::{TryFromRange, TryFromRangeError};
use http_range_header::{
    EndPosition, ParsedRanges, RangeUnsatisfiableError, StartPosition, SyntacticallyCorrectRange,
};
use std::ops::{Range, RangeInclusive};
use vstd::prelude::*;

verus! {

/// `http_range_header::ParsedRanges`, with its field.
#[verifier::external_type_specification]
pub struct ExParsedRanges(ParsedRanges);

/// `http_range_header::SyntacticallyCorrectRange`, with its fields.
#[verifier::external_type_specification]
pub struct ExSyntacticallyCorrectRange(SyntacticallyCorrectRange);

/// `http_range_header::StartPosition`, with its variants.
#[verifier::external_type_specification]
pub struct ExStartPosition(StartPosition);

/// `http_range_header::EndPosition`, with its variants.
#[verifier::external_type_specification]
pub struct ExEndPosition(EndPosition);

/// `http_range_header::RangeUnsatisfiableError`, with its variants.
#[verifier::external_type_specification]
pub struct ExRangeUnsatisfiableError(RangeUnsatisfiableError);

/// The ranges that the value `text` of a Range header asks for, or what is wrong with it.
pub uninterp spec fn header_ranges(text: Seq<char>) -> Result<
    Seq<SyntacticallyCorrectRange>,
    RangeUnsatisfiableError,
>;

/// `http_range_header::parse_range_header`: the ranges, or what is wrong with the value.
/// Both are a function of the value.
pub assume_specification[ http_range_header::parse_range_header ](
    range_header_value: &str,
) -> (res: Result<ParsedRanges, RangeUnsatisfiableError>)
    ensures
        match res {
            Ok(parsed) => header_ranges(range_header_value@) matches Ok(ranges) && parsed.ranges@
                == ranges,
            Err(e) => header_ranges(range_header_value@) matches Err(f) && e == f,
        },
;

/// The last byte of a file, or `0` if the file is empty.
pub open spec fn last_byte(file_size: u64) -> int {
    if file_size > 0 {
        file_size - 1
    } else {
        0
    }
}

/// The first byte of a file that `range` asks for.
pub open spec fn first_index(range: SyntacticallyCorrectRange, file_size: u64) -> int {
    match range.start {
        StartPosition::Index(i) => i as int,
        StartPosition::FromLast(i) => file_size - i,
    }
}

/// The last byte of a file that `range` asks for.
pub open spec fn last_index(range: SyntacticallyCorrectRange, file_size: u64) -> int {
    match range.end {
        EndPosition::Index(i) => if i < last_byte(file_size) {
            i as int
        } else {
            last_byte(file_size)
        },
        EndPosition::LastByte => last_byte(file_size),
    }
}

/// Why the ranges `ranges` cannot be served from a file.
pub open spec fn unsatisfiable(
    ranges: Seq<SyntacticallyCorrectRange>,
    file_size: u64,
) -> Option<RangeUnsatisfiableError> {
    if exists|i: int|
        0 <= i < ranges.len() && first_index(#[trigger] ranges[i], file_size) < 0 {
        Some(RangeUnsatisfiableError::FileSuffixOutOfBounds)
    } else if exists|i: int|
        0 <= i < ranges.len() && first_index(#[trigger] ranges[i], file_size) > last_index(
            ranges[i],
            file_size,
        ) {
        Some(RangeUnsatisfiableError::RangeReversed)
    } else if exists|i: int, j: int|
        0 <= i < j < ranges.len() && first_index(#[trigger] ranges[i], file_size) <= last_index(
            #[trigger] ranges[j],
            file_size,
        ) && first_index(ranges[j], file_size) <= last_index(ranges[i], file_size) {
        Some(RangeUnsatisfiableError::OverlappingRanges)
    } else {
        None
    }
}

/// `http_range_header::ParsedRanges::validate`: every range with its first and last byte
/// in the file, if no suffix is longer than the file, and then no range is reversed,
/// and then no two ranges overlap.
pub assume_specification[ ParsedRanges::validate ](
    parsed: &ParsedRanges,
    file_size_bytes: u64,
) -> (res: Result<Vec<RangeInclusive<u64>>, RangeUnsatisfiableError>)
    ensures
        match res {
            Ok(valid) => {
                &&& unsatisfiable(parsed.ranges@, file_size_bytes) is None
                &&& valid@.len() == parsed.ranges@.len()
                &&& forall|i: int|
                    0 <= i < valid@.len() ==> {
                        &&& (#[trigger] valid@[i])@.start == first_index(
                            parsed.ranges@[i],
                            file_size_bytes,
                        )
                        &&& valid@[i]@.end == last_index(parsed.ranges@[i], file_size_bytes)
                        &&& !valid@[i]@.exhausted
                    }
            },
            Err(e) => unsatisfiable(parsed.ranges@, file_size_bytes) == Some(e),
        },
;

/// What is wrong with a Range header.
#[derive(Debug)]
pub enum ParseRhError {
    /// The Range HTTP header value contains an invisible ASCII character.
    ToStr,
    /// Syntactically invalid Range HTTP header value.
    RangeUnsatisfiable(RangeUnsatisfiableError),
}

/// Whether the byte `b` is a visible ASCII character, a space or a tab.
pub open spec fn is_visible(b: u8) -> bool {
    32 <= b < 127 || b == 9
}

/// The ASCII characters with the codes `bytes`.
pub open spec fn ascii(bytes: Seq<u8>) -> Seq<char> {
    bytes.map_values(|b: u8| b as char)
}

/// The header value `bytes` as text, if all its characters are visible.
fn header_text(bytes: &[u8]) -> (res: Option<String>)
    ensures
        res is Some <==> forall|i: int| 0 <= i < bytes@.len() ==> is_visible(#[trigger] bytes@[i]),
        res matches Some(text) ==> text@ == ascii(bytes@),
{
    let mut text = String::new();
    let mut i: usize = 0;
    while i < bytes.len()
        invariant
            i <= bytes.len(),
            text@ =~= ascii(bytes@).take(i as int),
            forall|j: int| 0 <= j < i ==> is_visible(#[trigger] bytes@[j]),
        decreases bytes.len() - i,
    {
        let b: u8 = bytes[i];
        if !((32 <= b && b < 127) || b == 9) {
            assert(!is_visible(bytes@[i as int]));
            return None;
        }
        text.push(b as char);
        i += 1;
    }
    assert(ascii(bytes@).take(i as int) =~= ascii(bytes@));
    Some(text)
}

/// The ranges that the Range header with the value `value` asks for, or what is wrong with it.
pub open spec fn is_parsed_rh(
    value: Seq<u8>,
    res: Result<ParsedRanges, ParseRhError>,
) -> bool {
    if forall|i: int| 0 <= i < value.len() ==> is_visible(#[trigger] value[i]) {
        match header_ranges(ascii(value)) {
            Ok(ranges) => res matches Ok(parsed) && parsed.ranges@ == ranges,
            Err(e) => res matches Err(ParseRhError::RangeUnsatisfiable(f)) && e == f,
        }
    } else {
        res matches Err(ParseRhError::ToStr)
    }
}

/// Parses a Range HTTP header with the value `value`.
/// If there is no such header, returns `None`.
/// Otherwise, returns `Some(_)`.
pub fn parse_rh(value: Option<&[u8]>) -> (res: Option<Result<ParsedRanges, ParseRhError>>)
    ensures
        match value {
            None => res is None,
            Some(value) => res matches Some(parsed) && is_parsed_rh(value@, parsed),
        },
{
    match value {
        None => None,
        Some(value) => match header_text(value) {
            None => Some(Err(ParseRhError::ToStr)),
            Some(text) => match http_range_header::parse_range_header(text.as_str()) {
                Err(e) => Some(Err(ParseRhError::RangeUnsatisfiable(e))),
                Ok(parsed) => Some(Ok(parsed)),
            },
        },
    }
}

/// Why a Range header cannot be served from a file.
#[derive(Debug)]
pub enum RhInFileError {
    /// Only one file range is supported.
    RangeNotOne,
    /// File ranges are overlapping or out of bounds.
    RangeUnsatisfiable(RangeUnsatisfiableError),
    /// Internal error: file range conversion.
    RangeConvert(TryFromRangeError),
}

/// Why the ranges `ranges` of a Range header cannot be served from a file.
pub open spec fn rh_refusal(
    file_size: u64,
    ranges: Seq<SyntacticallyCorrectRange>,
) -> Option<RhInFileError> {
    match unsatisfiable(ranges, file_size) {
        Some(e) => Some(RhInFileError::RangeUnsatisfiable(e)),
        None => if ranges.len() != 1 {
            Some(RhInFileError::RangeNotOne)
        } else {
            None
        },
    }
}

/// Returns a range with specific bounds that represents the same set
/// as `rh` for a file of size `file_size`.
pub fn rh_in_file(file_size: u64, rh: &ParsedRanges) -> (res: Result<Range<u64>, RhInFileError>)
    ensures
        match res {
            Ok(range) => {
                &&& rh_refusal(file_size, rh.ranges@) is None
                &&& range.start == first_index(rh.ranges@[0], file_size)
                &&& range.end == last_index(rh.ranges@[0], file_size) + 1
                &&& range.start < range.end
                &&& file_size > 0 ==> range.end <= file_size
            },
            Err(e) => rh_refusal(file_size, rh.ranges@) == Some(e),
        },
{
    match rh.validate(file_size) {
        Err(e) => Err(RhInFileError::RangeUnsatisfiable(e)),
        Ok(mut ranges) => if ranges.len() != 1 {
            Err(RhInFileError::RangeNotOne)
        } else {
            proof {
                let range = rh.ranges@[0];
                assert(ranges@[0]@.start == first_index(range, file_size));
                assert(!(first_index(range, file_size) > last_index(range, file_size)));
            }
            match Range::try_from_range(ranges.pop().unwrap()) {
                Ok(range) => Ok(range),
                Err(e) => Err(RhInFileError::RangeConvert(e)),
            }
        },
    }
}

} // verus!
