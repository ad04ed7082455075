//! Base64 with the URL-safe alphabet.
use base64::Engine;
use vstd::prelude::*;

verus! {

/// The character of the alphabet with the number `v`.
pub open spec fn symbol(v: int) -> char {
    if v < 26 {
        (65 + v) as char
    } else if v < 52 {
        (71 + v) as char
    } else if v < 62 {
        (v - 4) as char
    } else if v == 62 {
        '-'
    } else {
        '_'
    }
}

/// Three bytes as four characters, six bits each.
/// The last characters of one or two bytes are replaced by `=`.
pub open spec fn quad(bytes: Seq<u8>) -> Seq<char> {
    let a = bytes[0] as int;
    let b = if bytes.len() > 1 {
        bytes[1] as int
    } else {
        0
    };
    let c = if bytes.len() > 2 {
        bytes[2] as int
    } else {
        0
    };
    seq![
        symbol(a / 4),
        symbol(a % 4 * 16 + b / 16),
        if bytes.len() > 1 {
            symbol(b % 16 * 4 + c / 64)
        } else {
            '='
        },
        if bytes.len() > 2 {
            symbol(c % 64)
        } else {
            '='
        },
    ]
}

/// The Base64 encoding of the bytes `bytes`.
pub open spec fn base64(bytes: Seq<u8>) -> Seq<char>
    decreases bytes.len(),
{
    if bytes.len() == 0 {
        Seq::empty()
    } else if bytes.len() <= 3 {
        quad(bytes)
    } else {
        quad(bytes.take(3)) + base64(bytes.skip(3))
    }
}

/// `base64::Engine::encode_string` of the engine `URL_SAFE`:
/// the encoding of the bytes is appended to the text.
#[verifier::external_body]
pub(crate) fn base64_append(bytes: &[u8], out: &mut String)
    ensures
        final(out)@ == old(out)@ + base64(bytes@),
{
    base64::engine::general_purpose::URL_SAFE.encode_string(bytes, out)
}

/// `base64::Engine::decode` of the engine `URL_SAFE`, which takes canonical encodings only:
/// the bytes that the text is the encoding of, if there are some.
#[verifier::external_body]
pub(crate) fn base64_decode(text: &str) -> (res: Option<Vec<u8>>)
    ensures
        match res {
            Some(bytes) => base64(bytes@) == text@,
            None => forall|bytes: Seq<u8>| #[trigger] base64(bytes) != text@,
        },
{
    base64::engine::general_purpose::URL_SAFE.decode(text).ok()
}

proof fn symbol_is_injective(v: int, w: int)
    requires
        0 <= v < 64,
        0 <= w < 64,
        symbol(v) == symbol(w),
    ensures
        v == w,
{
}

proof fn symbol_is_not_pad(v: int)
    requires
        0 <= v < 64,
    ensures
        symbol(v) != '=',
        symbol(v) != '/',
        0 <= symbol(v) as int <= 127,
{
}

proof fn quad_is_injective(a: Seq<u8>, b: Seq<u8>)
    requires
        0 < a.len() <= 3,
        0 < b.len() <= 3,
        quad(a) == quad(b),
    ensures
        a == b,
{
    let p = quad(a);
    let q = quad(b);
    let a1: int = if a.len() > 1 { a[1] as int } else { 0 };
    let b1: int = if b.len() > 1 { b[1] as int } else { 0 };
    let a2: int = if a.len() > 2 { a[2] as int } else { 0 };
    let b2: int = if b.len() > 2 { b[2] as int } else { 0 };
    assert(p[0] == q[0] && p[1] == q[1] && p[2] == q[2] && p[3] == q[3]);
    symbol_is_not_pad(a1 % 16 * 4 + a2 / 64);
    symbol_is_not_pad(b1 % 16 * 4 + b2 / 64);
    symbol_is_not_pad(a2 % 64);
    symbol_is_not_pad(b2 % 64);
    assert(a.len() == b.len());
    symbol_is_injective(a[0] as int / 4, b[0] as int / 4);
    symbol_is_injective(a[0] as int % 4 * 16 + a1 / 16, b[0] as int % 4 * 16 + b1 / 16);
    if a.len() > 1 {
        symbol_is_injective(a1 % 16 * 4 + a2 / 64, b1 % 16 * 4 + b2 / 64);
    }
    if a.len() > 2 {
        symbol_is_injective(a2 % 64, b2 % 64);
    }
    assert(a =~= b);
}

/// The encoding has four characters for every three bytes, rounded up.
pub proof fn base64_len(bytes: Seq<u8>)
    ensures
        base64(bytes).len() == (bytes.len() + 2) / 3 * 4,
    decreases bytes.len(),
{
    if bytes.len() > 3 {
        base64_len(bytes.skip(3));
    }
}

/// Different bytes have different encodings.
pub proof fn base64_is_injective(a: Seq<u8>, b: Seq<u8>)
    requires
        base64(a) == base64(b),
    ensures
        a == b,
    decreases a.len(),
{
    base64_len(a);
    base64_len(b);
    if a.len() == 0 || b.len() == 0 {
        assert(a =~= b);
    } else {
        let p = base64(a);
        if a.len() <= 3 {
            quad_is_injective(a, b);
        } else {
            assert(p.take(4) =~= quad(a.take(3)));
            assert(p.take(4) =~= quad(b.take(3)));
            assert(p.skip(4) =~= base64(a.skip(3)));
            assert(p.skip(4) =~= base64(b.skip(3)));
            quad_is_injective(a.take(3), b.take(3));
            base64_is_injective(a.skip(3), b.skip(3));
            assert(a =~= a.take(3) + a.skip(3));
            assert(b =~= b.take(3) + b.skip(3));
        }
    }
}

/// An encoding consists of ASCII characters other than `/`.
pub proof fn base64_chars(bytes: Seq<u8>, i: int)
    requires
        0 <= i < base64(bytes).len(),
    ensures
        base64(bytes)[i] != '/',
        0 <= base64(bytes)[i] as int <= 127,
    decreases bytes.len(),
{
    if bytes.len() > 3 && i >= 4 {
        base64_chars(bytes.skip(3), i - 4);
    } else {
        let part = if bytes.len() <= 3 {
            bytes
        } else {
            bytes.take(3)
        };
        quad_chars(part, i);
        assert(base64(bytes)[i] == quad(part)[i]);
    }
}

proof fn quad_chars(bytes: Seq<u8>, i: int)
    requires
        0 < bytes.len() <= 3,
        0 <= i < 4,
    ensures
        quad(bytes)[i] != '/',
        0 <= quad(bytes)[i] as int <= 127,
{
    let b: int = if bytes.len() > 1 { bytes[1] as int } else { 0 };
    let c: int = if bytes.len() > 2 { bytes[2] as int } else { 0 };
    symbol_is_not_pad(bytes[0] as int / 4);
    symbol_is_not_pad(bytes[0] as int % 4 * 16 + b / 16);
    symbol_is_not_pad(b % 16 * 4 + c / 64);
    symbol_is_not_pad(c % 64);
}

} // verus!
