//! Percent-encoding.
use vstd::prelude::*;
use vstd::utf8::*;

verus! {

/// Whether percent-encoding keeps the byte `b`: a letter, a digit, or one of `-._~`.
pub open spec fn is_unreserved(b: u8) -> bool {
    48 <= b <= 57 || 65 <= b <= 90 || 97 <= b <= 122 || b == 45 || b == 46 || b == 95 || b == 126
}

/// The upper-case hexadecimal digit of the number `v`.
pub open spec fn hex_digit(v: int) -> char {
    if v < 10 {
        (48 + v) as char
    } else {
        (55 + v) as char
    }
}

/// The encoding of the byte `b`: `b` itself, or `%` and two hexadecimal digits.
pub open spec fn encoded_byte(b: u8) -> Seq<char> {
    if is_unreserved(b) {
        seq![b as char]
    } else {
        seq!['%', hex_digit(b as int / 16), hex_digit(b as int % 16)]
    }
}

/// The encoding of the bytes `bytes`.
pub open spec fn encoded(bytes: Seq<u8>) -> Seq<char>
    decreases bytes.len(),
{
    if bytes.len() == 0 {
        Seq::empty()
    } else {
        encoded_byte(bytes[0]) + encoded(bytes.skip(1))
    }
}

/// The number of the hexadecimal digit `b`.
pub open spec fn hex_value(b: u8) -> Option<int> {
    if 48 <= b <= 57 {
        Some(b - 48)
    } else if 65 <= b <= 70 {
        Some(b - 55)
    } else if 97 <= b <= 102 {
        Some(b - 87)
    } else {
        None
    }
}

/// The bytes that the encoding `bytes` stands for.
/// A `%` that is not followed by two hexadecimal digits stands for itself.
pub open spec fn decoded(bytes: Seq<u8>) -> Seq<u8>
    decreases bytes.len(),
{
    if bytes.len() == 0 {
        Seq::empty()
    } else if bytes[0] == 37 && bytes.len() >= 3 && hex_value(bytes[1]) is Some && hex_value(
        bytes[2],
    ) is Some {
        seq![(hex_value(bytes[1])->0 * 16 + hex_value(bytes[2])->0) as u8] + decoded(bytes.skip(3))
    } else {
        seq![bytes[0]] + decoded(bytes.skip(1))
    }
}

/// The percent-encoding of the text `s`.
pub open spec fn percent_encoded(s: Seq<char>) -> Seq<char> {
    encoded(encode_utf8(s))
}

/// The text that the percent-encoding `s` stands for, if it is one.
pub open spec fn percent_decoded(s: Seq<char>) -> Option<Seq<char>> {
    let bytes = decoded(encode_utf8(s));
    if valid_utf8(bytes) {
        Some(decode_utf8(bytes))
    } else {
        None
    }
}

/// `urlencoding::encode`: every byte of the text in UTF-8 but letters, digits and `-._~`
/// becomes `%` and two upper-case hexadecimal digits.
#[verifier::external_body]
pub(crate) fn percent_encode(s: &str) -> (res: String)
    ensures
        res@ == percent_encoded(s@),
{
    urlencoding::encode(s).into_owned()
}

/// `urlencoding::decode`: every `%` with two hexadecimal digits becomes the byte with this number.
/// It succeeds iff the bytes are a text in UTF-8, and gives this text.
#[verifier::external_body]
pub(crate) fn percent_decode(s: &str) -> (res: Option<String>)
    ensures
        match res {
            Some(text) => percent_decoded(s@) == Some(text@),
            None => percent_decoded(s@) is None,
        },
{
    urlencoding::decode(s).ok().map(|text| text.into_owned())
}

/// The codes of ASCII characters.
spec fn codes(s: Seq<char>) -> Seq<u8> {
    s.map_values(|c: char| c as u8)
}

/// An encoding consists of letters, digits and `-._~%`.
pub proof fn encoded_chars(bytes: Seq<u8>, i: int)
    requires
        0 <= i < encoded(bytes).len(),
    ensures
        is_unreserved(encoded(bytes)[i] as u8) || encoded(bytes)[i] == '%',
        0 <= encoded(bytes)[i] as int <= 127,
        encoded(bytes)[i] != '/',
    decreases bytes.len(),
{
    let first = encoded_byte(bytes[0]);
    if i >= first.len() {
        encoded_chars(bytes.skip(1), i - first.len());
    }
}

/// Decoding undoes encoding.
proof fn decoded_encoded(bytes: Seq<u8>)
    ensures
        decoded(codes(encoded(bytes))) == bytes,
    decreases bytes.len(),
{
    if bytes.len() > 0 {
        let b = bytes[0];
        let rest = bytes.skip(1);
        let all = codes(encoded(bytes));
        decoded_encoded(rest);
        if is_unreserved(b) {
            assert(all.skip(1) =~= codes(encoded(rest)));
            assert(all[0] == b);
        } else {
            assert(all.skip(3) =~= codes(encoded(rest)));
            assert(all[0] == 37);
            assert(all[1] == hex_digit(b as int / 16) as u8);
            assert(all[2] == hex_digit(b as int % 16) as u8);
            assert(hex_value(all[1]) == Some(b as int / 16));
            assert(hex_value(all[2]) == Some(b as int % 16));
        }
        assert(seq![b] + rest =~= bytes);
    } else {
        assert(codes(encoded(bytes)) =~= Seq::empty());
        assert(bytes =~= Seq::empty());
    }
}

/// Percent-decoding undoes percent-encoding.
pub proof fn percent_round_trip(s: Seq<char>)
    ensures
        percent_decoded(percent_encoded(s)) == Some(s),
{
    let text = percent_encoded(s);
    let bytes = encode_utf8(s);
    assert forall|i: int| 0 <= i < text.len() implies 0 <= #[trigger] text[i] as int <= 127 by {
        encoded_chars(bytes, i);
    }
    assert(is_ascii_chars(text));
    is_ascii_chars_encode_utf8(text);
    assert(encode_utf8(text) =~= codes(text));
    decoded_encoded(bytes);
    encode_utf8_valid_utf8(s);
    encode_utf8_decode_utf8(s);
}

} // verus!
