//! Magnet links.
use crate::disk::slice::{InfoHash, INFO_HASH_BYTE_N_USIZE};
use crate::error::Error;
use crate::percent::{hex_value, percent_decode, percent_decoded};
use crate::text::{chars_of, holds_at, is_at, split, split_is_not_empty, split_text, texts};
use crate::uri_path::hash_of;
use vstd::prelude::*;
use vstd::string::*;
use vstd::utf8::*;

verus! {

/// `uriparse::URIError`.
#[verifier::external_type_specification]
#[verifier::external_body]
pub struct ExURIError(uriparse::URIError);

/// The fields of a magnet link.
#[derive(Debug)]
pub struct MagnetFields {
    /// Display name of the torrent.
    pub dn: Option<String>,
    /// Type of hash used in the exact topic.
    pub hash_type: Option<String>,
    /// Exact topic: the hash of the content.
    pub xt: Option<String>,
    /// Exact length: the size in bytes.
    pub xl: Option<u64>,
    /// Exact source.
    pub xs: Option<String>,
    /// Address tracker: the URLs of trackers.
    pub tr: Vec<String>,
    /// Keyword topic.
    pub kt: Option<String>,
    /// Web seed.
    pub ws: Option<String>,
    /// Acceptable source.
    pub acceptable_source: Option<String>,
    /// Manifest topic.
    pub mt: Option<String>,
}

/// What a [`MagnetFields`] holds.
pub ghost struct MagnetData {
    pub dn: Option<Seq<char>>,
    pub hash_type: Option<Seq<char>>,
    pub xt: Option<Seq<char>>,
    pub xl: Option<u64>,
    pub xs: Option<Seq<char>>,
    pub tr: Seq<Seq<char>>,
    pub kt: Option<Seq<char>>,
    pub ws: Option<Seq<char>>,
    pub acceptable_source: Option<Seq<char>>,
    pub mt: Option<Seq<char>>,
}

/// What an optional text holds.
pub open spec fn optional_text(s: Option<String>) -> Option<Seq<char>> {
    match s {
        Some(s) => Some(s@),
        None => None,
    }
}

/// What the fields of `m` hold.
pub open spec fn magnet_data(m: MagnetFields) -> MagnetData {
    MagnetData {
        dn: optional_text(m.dn),
        hash_type: optional_text(m.hash_type),
        xt: optional_text(m.xt),
        xl: m.xl,
        xs: optional_text(m.xs),
        tr: texts(m.tr@),
        kt: optional_text(m.kt),
        ws: optional_text(m.ws),
        acceptable_source: optional_text(m.acceptable_source),
        mt: optional_text(m.mt),
    }
}

/// Whether `c` is a decimal digit.
pub open spec fn is_digit(c: char) -> bool {
    '0' <= c <= '9'
}

/// Whether `c` is an ASCII white space.
pub open spec fn is_space(c: char) -> bool {
    c == ' ' || 9 <= c as int <= 13
}

/// The index after the decimal digits that `s` holds from the index `i` on.
pub open spec fn digits_end(s: Seq<char>, i: int) -> int
    decreases s.len() - i,
{
    if 0 <= i < s.len() && is_digit(s[i]) {
        digits_end(s, i + 1)
    } else {
        i
    }
}

/// The number that the decimal digits `digits` stand for.
pub open spec fn number(digits: Seq<char>) -> nat
    decreases digits.len(),
{
    if digits.len() == 0 {
        0
    } else {
        number(digits.drop_last()) * 10 + (digits.last() as int - 48) as nat
    }
}

/// Whether `s` holds an exact length entry at the index `i`:
/// `xl=` and decimal digits, up to `&`, a white space or the end.
pub open spec fn has_length_at(s: Seq<char>, i: int) -> bool {
    let end = digits_end(s, i + 3);
    &&& holds_at(s, i, "xl="@)
    &&& end == s.len() || s[end] == '&' || is_space(s[end])
}

/// Whether the exact length entry of `s` at the index `i` has digits,
/// and these stand for a number of 64 bits.
pub open spec fn length_fits_at(s: Seq<char>, i: int) -> bool {
    let end = digits_end(s, i + 3);
    i + 3 < end && number(s.subrange(i + 3, end)) <= u64::MAX
}

/// Whether the first exact length entry of `s`, if there is one, can be read.
pub open spec fn length_fits(s: Seq<char>) -> bool {
    forall|i: int| #[trigger]
        has_length_at(s, i) && (forall|j: int| 0 <= j < i ==> !has_length_at(s, j))
            ==> length_fits_at(s, i)
}

/// The start of every magnet link.
pub open spec fn magnet_prefix() -> Seq<char> {
    "magnet:?"@
}

/// The fields of the magnet link `url`.
pub uninterp spec fn magnet_fields(url: Seq<char>) -> MagnetData;

/// `magnet_url::Magnet::new`: it succeeds iff the link starts with `magnet:?`.
/// The fields are a function of the link. It panics if the first exact length entry
/// cannot be read; which characters are digits or white space is told for ASCII links.
#[verifier::external_body]
fn parse_fields(url: &str) -> (res: Option<MagnetFields>)
    requires
        is_ascii_chars(url@),
        length_fits(url@),
    ensures
        match res {
            Some(fields) => holds_at(url@, 0, magnet_prefix()) && magnet_data(fields)
                == magnet_fields(url@),
            None => !holds_at(url@, 0, magnet_prefix()),
        },
{
    magnet_url::Magnet::new(url).ok().map(|m| MagnetFields {
        dn: m.dn,
        hash_type: m.hash_type,
        xt: m.xt,
        xl: m.xl,
        xs: m.xs,
        tr: m.tr,
        kt: m.kt,
        ws: m.ws,
        acceptable_source: m.acceptable_source,
        mt: m.mt,
    })
}

/// Whether `c` may stand in the query and in the fragment of a URI.
pub open spec fn is_uri_char(c: char) -> bool {
    ||| 'a' <= c <= 'z'
    ||| 'A' <= c <= 'Z'
    ||| '&' <= c <= ';'
    ||| c == '!' || c == '$' || c == '=' || c == '?' || c == '@' || c == '_' || c == '~'
}

/// Whether `s` may be the query or the fragment of a URI:
/// it consists of URI characters, and of `%` with two hexadecimal digits.
pub open spec fn is_uri_text(s: Seq<char>) -> bool
    decreases s.len(),
{
    if s.len() == 0 {
        true
    } else if s[0] == '%' {
        &&& s.len() >= 3
        &&& s[1] as int <= 127 && hex_value(s[1] as u8) is Some
        &&& s[2] as int <= 127 && hex_value(s[2] as u8) is Some
        &&& is_uri_text(s.skip(3))
    } else {
        is_uri_char(s[0]) && is_uri_text(s.skip(1))
    }
}

/// The query and the fragment of a link that starts with `magnet:?`.
pub open spec fn link_parts(url: Seq<char>) -> Seq<Seq<char>> {
    split(url.skip(8), '#')
}

/// Whether `url` is a magnet link: it starts with `magnet:?`,
/// and its query and its fragment, if there is one, are those of a URI.
pub open spec fn is_magnet_link(url: Seq<char>) -> bool {
    &&& holds_at(url, 0, magnet_prefix())
    &&& link_parts(url).len() <= 2
    &&& forall|i: int| 0 <= i < link_parts(url).len() ==> is_uri_text(#[trigger] link_parts(url)[i])
}

/// `uriparse::URI::try_from` and `query`, for a link that starts with `magnet:?`:
/// what follows up to a `#` is the query. It succeeds iff the query and the fragment
/// are allowed in a URI.
#[verifier::external_body]
fn uri_query(url: &str) -> (res: Result<Option<String>, uriparse::URIError>)
    requires
        holds_at(url@, 0, magnet_prefix()),
    ensures
        match res {
            Ok(query) => is_magnet_link(url@) && optional_text(query) == Some(link_parts(url@)[0]),
            Err(_) => !is_magnet_link(url@),
        },
{
    uriparse::URI::try_from(url).map(|uri| uri.query().map(|query| query.as_str().to_owned()))
}

/// The names and values in the form `query`.
pub uninterp spec fn form_pairs(query: Seq<char>) -> Seq<(Seq<char>, Seq<char>)>;

/// What the pairs of texts `pairs` hold.
pub open spec fn pairs_data(pairs: Seq<(String, String)>) -> Seq<(Seq<char>, Seq<char>)> {
    pairs.map_values(|p: (String, String)| (p.0@, p.1@))
}

/// `form_urlencoded::parse`: the names and values, which are a function of the form.
#[verifier::external_body]
fn parse_form(query: &str) -> (res: Vec<(String, String)>)
    ensures
        pairs_data(res@) == form_pairs(query@),
{
    form_urlencoded::parse(query.as_bytes()).into_owned().collect()
}

/// The values in `pairs` with the name `x.pe`.
pub open spec fn x_pe_values(pairs: Seq<(Seq<char>, Seq<char>)>) -> Seq<Seq<char>>
    decreases pairs.len(),
{
    if pairs.len() == 0 {
        Seq::empty()
    } else if pairs.last().0 == "x.pe"@ {
        x_pe_values(pairs.drop_last()).push(pairs.last().1)
    } else {
        x_pe_values(pairs.drop_last())
    }
}

/// The values in `pairs` with the name `x.pe`.
pub fn select_x_pe(pairs: &Vec<(String, String)>) -> (res: Vec<String>)
    ensures
        texts(res@) == x_pe_values(pairs_data(pairs@)),
{
    let ghost all = pairs_data(pairs@);
    let name = String::from_str("x.pe");
    let mut res: Vec<String> = Vec::new();
    let mut i: usize = 0;
    assert(all.take(0) =~= Seq::empty());
    while i < pairs.len()
        invariant
            i <= pairs.len(),
            all == pairs_data(pairs@),
            name@ == "x.pe"@,
            texts(res@) =~= x_pe_values(all.take(i as int)),
        decreases pairs.len() - i,
    {
        proof {
            assert(all.take(i + 1).drop_last() =~= all.take(i as int));
            assert(all.take(i + 1).last() == (pairs@[i as int].0@, pairs@[i as int].1@));
        }
        if pairs[i].0 == name {
            let ghost before = res@;
            res.push(pairs[i].1.clone());
            assert(texts(res@) =~= texts(before).push(pairs@[i as int].1@));
        }
        i += 1;
    }
    assert(all.take(i as int) =~= all);
    res
}

/// A magnet link with peer addresses of the type `A`.
#[derive(Debug)]
pub struct Magnet<A> {
    /// The fields of the link.
    pub inner: MagnetFields,
    /// Peer addresses.
    pub x_pe: Vec<A>,
}

/// Whether `parse` may give `address` for the text `text`.
pub open spec fn may_give<A, F: Fn(&String) -> Option<A>>(
    parse: F,
    text: Seq<char>,
    address: Option<A>,
) -> bool {
    exists|s: &String| s@ == text && #[trigger] call_ensures(parse, (s,), address)
}

/// Whether `parse` may give `addresses` for the texts `texts`, one for each.
pub open spec fn may_give_all<A, F: Fn(&String) -> Option<A>>(
    parse: F,
    texts: Seq<Seq<char>>,
    addresses: Seq<A>,
) -> bool {
    &&& addresses.len() == texts.len()
    &&& forall|i: int|
        0 <= i < texts.len() ==> may_give(parse, #[trigger] texts[i], Some(addresses[i]))
}

/// Whether `parse` may give no address for one of the texts `texts`.
pub open spec fn may_refuse_one<A, F: Fn(&String) -> Option<A>>(
    parse: F,
    texts: Seq<Seq<char>>,
) -> bool {
    exists|i: int| 0 <= i < texts.len() && may_give(parse, #[trigger] texts[i], None::<A>)
}

/// Parses addresses. There is no result if one of the texts is no address.
pub fn parse_addresses<A, F: Fn(&String) -> Option<A>>(list: &Vec<String>, parse: &F) -> (res:
    Option<Vec<A>>)
    requires
        forall|s: &String| #[trigger] call_requires(*parse, (s,)),
    ensures
        match res {
            Some(addresses) => may_give_all(*parse, texts(list@), addresses@),
            None => may_refuse_one(*parse, texts(list@)),
        },
{
    let ghost all = texts(list@);
    let mut res: Vec<A> = Vec::new();
    let mut i: usize = 0;
    while i < list.len()
        invariant
            i <= list.len(),
            all == texts(list@),
            forall|s: &String| #[trigger] call_requires(*parse, (s,)),
            res@.len() == i,
            forall|k: int| 0 <= k < i ==> may_give(*parse, #[trigger] all[k], Some(res@[k])),
        decreases list.len() - i,
    {
        let text = &list[i];
        assert(all[i as int] == text@);
        match parse(text) {
            Some(address) => {
                assert(may_give(*parse, all[i as int], Some(address)));
                res.push(address);
            },
            None => {
                assert(may_give(*parse, all[i as int], None::<A>));
                return None;
            },
        }
        i += 1;
    }
    Some(res)
}

proof fn code_is_natural(c: char)
    ensures
        0 <= c as int,
{
}

/// URI text is ASCII.
proof fn uri_text_is_ascii(s: Seq<char>)
    requires
        is_uri_text(s),
    ensures
        is_ascii_chars(s),
    decreases s.len(),
{
    if s.len() > 0 {
        let n: int = if s[0] == '%' {
            3
        } else {
            1
        };
        uri_text_is_ascii(s.skip(n));
        assert forall|i: int| 0 <= i < s.len() implies '\0' <= #[trigger] s[i] <= '\u{7f}' by {
            if i >= n {
                assert(s.skip(n)[i - n] == s[i]);
            } else {
                assert(s[i] as int <= 127);
                code_is_natural(s[i]);
            }
        }
    }
}

/// A text whose parts are ASCII is ASCII.
proof fn parts_are_ascii(s: Seq<char>)
    requires
        forall|i: int|
            0 <= i < split(s, '#').len() ==> is_ascii_chars(#[trigger] split(s, '#')[i]),
    ensures
        is_ascii_chars(s),
    decreases s.len(),
{
    if s.len() > 0 {
        let front = s.drop_last();
        let parts = split(front, '#');
        let all = split(s, '#');
        split_is_not_empty(front, '#');
        assert forall|i: int| 0 <= i < parts.len() implies is_ascii_chars(#[trigger] parts[i]) by {
            assert(is_ascii_chars(all[i]));
            if i == parts.len() - 1 && s.last() != '#' {
                assert forall|k: int| 0 <= k < parts[i].len() implies '\0' <= #[trigger] parts[i][k]
                    <= '\u{7f}' by {
                    assert(all[i][k] == parts[i][k]);
                }
            }
        }
        parts_are_ascii(front);
        assert(s.last() as int <= 127) by {
            if s.last() != '#' {
                let i = parts.len() - 1;
                assert(is_ascii_chars(all[i]));
                assert(all[i][parts[i].len() as int] == s.last());
            }
        }
        assert forall|i: int| 0 <= i < s.len() implies '\0' <= #[trigger] s[i] <= '\u{7f}' by {
            if i < front.len() {
                assert(front[i] == s[i]);
            } else {
                assert(s[i] as int <= 127);
                code_is_natural(s[i]);
            }
        }
    }
}

/// A magnet link is ASCII.
proof fn magnet_link_is_ascii(url: Seq<char>)
    requires
        is_magnet_link(url),
    ensures
        is_ascii_chars(url),
{
    reveal_strlit("magnet:?");
    let rest = url.skip(8);
    assert forall|i: int| 0 <= i < split(rest, '#').len() implies is_ascii_chars(
        #[trigger] split(rest, '#')[i],
    ) by {
        assert(is_uri_text(link_parts(url)[i]));
        uri_text_is_ascii(split(rest, '#')[i]);
    }
    parts_are_ascii(rest);
    let start = url.subrange(0, 8);
    assert(start == magnet_prefix());
    assert forall|i: int| 0 <= i < url.len() implies '\0' <= #[trigger] url[i] <= '\u{7f}' by {
        if i < 8 {
            assert(url[i] == start[i]);
        } else {
            assert(url[i] == rest[i - 8]);
        }
    }
}

/// Whether the text `s` starts with `prefix`.
fn starts_with(s: &str, prefix: &str) -> (res: bool)
    ensures
        res == holds_at(s@, 0, prefix@),
{
    let chars = chars_of(s);
    let part = chars_of(prefix);
    is_at(&chars, 0, &part)
}

impl<A> Magnet<A> {
    /// Reads a magnet link. `parse_address` reads the address of a peer.
    pub fn new<F: Fn(&String) -> Option<A>>(magnet_url: &str, parse_address: F) -> (res: Result<
        Self,
        Error,
    >)
        requires
            is_magnet_link(magnet_url@) ==> length_fits(magnet_url@),
            forall|s: &String| #[trigger] call_requires(parse_address, (s,)),
        ensures
            match res {
                Ok(m) => {
                    &&& is_magnet_link(magnet_url@)
                    &&& magnet_data(m.inner) == magnet_fields(magnet_url@)
                    &&& may_give_all(parse_address, link_x_pe(magnet_url@), m.x_pe@)
                },
                Err(e) => {
                    &&& e == Error::MagnetLinkInvalid
                    &&& !is_magnet_link(magnet_url@) || may_refuse_one(
                        parse_address,
                        link_x_pe(magnet_url@),
                    )
                },
            },
    {
        if !starts_with(magnet_url, "magnet:?") {
            return Err(Error::MagnetLinkInvalid);
        }
        let query = match uri_query(magnet_url) {
            Ok(query) => query,
            Err(_) => {
                return Err(Error::MagnetLinkInvalid);
            },
        };
        proof {
            magnet_link_is_ascii(magnet_url@);
        }
        let inner = match parse_fields(magnet_url) {
            Some(inner) => inner,
            None => {
                return Err(Error::MagnetLinkInvalid);
            },
        };
        let texts = match query {
            Some(query) => select_x_pe(&parse_form(query.as_str())),
            None => Vec::new(),
        };
        match parse_addresses(&texts, &parse_address) {
            Some(x_pe) => Ok(Magnet { inner, x_pe }),
            None => Err(Error::MagnetLinkInvalid),
        }
    }
}

/// The values of the `x.pe` entries in the query of the magnet link `url`.
pub open spec fn link_x_pe(url: Seq<char>) -> Seq<Seq<char>> {
    x_pe_values(form_pairs(link_parts(url)[0]))
}

/// The bytes that the hexadecimal digits `digits` stand for, if they stand for bytes.
pub open spec fn hex_bytes(digits: Seq<u8>) -> Option<Seq<u8>> {
    if digits.len() % 2 == 0 && forall|i: int|
        0 <= i < digits.len() ==> hex_value(#[trigger] digits[i]) is Some {
        Some(
            Seq::new(
                digits.len() / 2,
                |i: int| (hex_value(digits[2 * i])->0 * 16 + hex_value(digits[2 * i + 1])->0) as u8,
            ),
        )
    } else {
        None
    }
}

/// `hex::decode`: two hexadecimal digits are a byte.
/// It succeeds iff the text consists of pairs of hexadecimal digits.
#[verifier::external_body]
fn hex_decode(text: &str) -> (res: Option<Vec<u8>>)
    ensures
        match res {
            Some(bytes) => hex_bytes(encode_utf8(text@)) == Some(bytes@),
            None => hex_bytes(encode_utf8(text@)) is None,
        },
{
    hex::decode(text).ok()
}

/// The text `s` without the occurrences of `part`, from left to right.
pub open spec fn removed(s: Seq<char>, part: Seq<char>) -> Seq<char>
    decreases s.len(),
{
    if s.len() == 0 || part.len() == 0 {
        s
    } else if holds_at(s, 0, part) {
        removed(s.skip(part.len() as int), part)
    } else {
        seq![s[0]] + removed(s.skip(1), part)
    }
}

/// Removes the occurrences of `part` from the text `s`.
fn remove_part(s: &str, part: &str) -> (res: String)
    requires
        part@.len() > 0,
    ensures
        res@ == removed(s@, part@),
{
    let chars = chars_of(s);
    let pattern = chars_of(part);
    let mut res = String::new();
    let mut i: usize = 0;
    assert(s@.skip(0) =~= s@);
    while i < chars.len()
        invariant
            i <= chars.len(),
            chars@ == s@,
            pattern@ == part@,
            part@.len() > 0,
            res@ + removed(s@.skip(i as int), part@) =~= removed(s@, part@),
        decreases chars.len() - i,
    {
        let ghost rest = s@.skip(i as int);
        let ghost before = res@;
        if is_at(&chars, i, &pattern) {
            proof {
                assert(rest.subrange(0, part@.len() as int) =~= s@.subrange(
                    i as int,
                    i + part@.len(),
                ));
                assert(holds_at(rest, 0, part@));
                assert(rest.skip(part@.len() as int) =~= s@.skip(i + part@.len()));
            }
            i += pattern.len();
        } else {
            res.push(chars[i]);
            proof {
                assert(!holds_at(rest, 0, part@)) by {
                    if holds_at(rest, 0, part@) {
                        assert(rest.subrange(0, part@.len() as int) =~= s@.subrange(
                            i as int,
                            i + part@.len(),
                        ));
                    }
                }
                assert(rest.skip(1) =~= s@.skip(i + 1));
                assert(before.push(s@[i as int]) + removed(rest.skip(1), part@) =~= before + (
                seq![rest[0]] + removed(rest.skip(1), part@)));
            }
            i += 1;
        }
    }
    assert(s@.skip(i as int) =~= Seq::empty());
    assert(res@ =~= removed(s@, part@));
    res
}

/// Whether the tracker URL `url` is kept: it starts with `udp`.
pub open spec fn is_udp(url: Seq<char>) -> bool {
    holds_at(url, 0, "udp"@)
}

/// The socket address in the tracker URL `url`: the decoded URL without `udp://`
/// and without what follows a `/`.
pub open spec fn tracker_address(url: Seq<char>) -> Seq<char> {
    split(removed(percent_decoded(url)->0, "udp://"@), '/')[0]
}

/// The socket addresses in the tracker URLs `urls` that start with `udp`.
pub open spec fn tracker_addresses(urls: Seq<Seq<char>>) -> Seq<Seq<char>>
    decreases urls.len(),
{
    if urls.len() == 0 {
        Seq::empty()
    } else if is_udp(urls.last()) {
        tracker_addresses(urls.drop_last()).push(tracker_address(urls.last()))
    } else {
        tracker_addresses(urls.drop_last())
    }
}

/// Whether the tracker URLs in `urls` that start with `udp` can be decoded.
pub open spec fn trackers_decode(urls: Seq<Seq<char>>) -> bool {
    forall|i: int|
        0 <= i < urls.len() && is_udp(#[trigger] urls[i]) ==> percent_decoded(urls[i]) is Some
}

/// Whether the exact topic `xt` starts with an info hash.
pub open spec fn has_info_hash(xt: Option<Seq<char>>) -> bool {
    xt matches Some(xt) && hex_bytes(encode_utf8(xt)) matches Some(bytes) && bytes.len()
        >= INFO_HASH_BYTE_N_USIZE
}

impl<A> Magnet<A> {
    /// The name will come URL encoded, and it is also optional.
    pub fn parse_dn(&self) -> (res: String)
        ensures
            res@ == match magnet_data(self.inner).dn {
                Some(dn) => match percent_decoded(dn) {
                    Some(name) => name,
                    None => "Unknown"@,
                },
                None => "Unknown"@,
            },
    {
        if let Some(dn) = &self.inner.dn {
            if let Some(dn) = percent_decode(dn.as_str()) {
                return dn;
            }
        }
        String::from_str("Unknown")
    }

    /// Transforms the "xt" field from hex, to a slice.
    pub fn parse_xt(&self) -> (res: InfoHash)
        requires
            has_info_hash(magnet_data(self.inner).xt),
        ensures
            res@ == hex_bytes(encode_utf8(magnet_data(self.inner).xt->0))->0.take(
                INFO_HASH_BYTE_N_USIZE as int,
            ),
    {
        let xt = self.inner.xt.as_ref().unwrap();
        let bytes = hex_decode(xt.as_str()).unwrap();
        hash_of(&bytes)
    }

    /// Tests [`has_info_hash`].
    pub fn has_info_hash(&self) -> (res: bool)
        ensures
            res == has_info_hash(magnet_data(self.inner).xt),
    {
        match &self.inner.xt {
            Some(xt) => match hex_decode(xt.as_str()) {
                Some(bytes) => bytes.len() >= INFO_HASH_BYTE_N_USIZE,
                None => false,
            },
            None => false,
        }
    }

    /// Parses trackers so they can be used as socket addresses.
    pub fn parse_trackers(&self) -> (res: Vec<String>)
        requires
            trackers_decode(magnet_data(self.inner).tr),
        ensures
            texts(res@) == tracker_addresses(magnet_data(self.inner).tr),
    {
        let ghost urls = magnet_data(self.inner).tr;
        let tr = &self.inner.tr;
        let mut res: Vec<String> = Vec::new();
        let mut i: usize = 0;
        assert(urls.take(0) =~= Seq::empty());
        while i < tr.len()
            invariant
                i <= tr.len(),
                urls == texts(tr@),
                trackers_decode(urls),
                texts(res@) =~= tracker_addresses(urls.take(i as int)),
            decreases tr.len() - i,
        {
            let url = tr[i].as_str();
            proof {
                assert(urls.take(i + 1).drop_last() =~= urls.take(i as int));
                assert(urls.take(i + 1).last() == url@);
                assert(urls[i as int] == url@);
            }
            if starts_with(url, "udp") {
                if let Some(decoded) = percent_decode(url) {
                    proof {
                        reveal_strlit("udp://");
                    }
                    let address = remove_part(decoded.as_str(), "udp://");
                    proof {
                        split_is_not_empty(address@, '/');
                    }
                    // Removes any "/announce".
                    let mut parts = split_text(address.as_str(), '/');
                    let ghost before = res@;
                    let ghost first = split(address@, '/')[0];
                    assert(texts(parts@)[0] == parts@[0]@);
                    res.push(parts.swap_remove(0));
                    assert(texts(res@) =~= texts(before).push(first));
                }
            }
            i += 1;
        }
        assert(urls.take(i as int) =~= urls);
        res
    }

    /// Tests [`trackers_decode`].
    pub fn trackers_decode(&self) -> (res: bool)
        ensures
            res == trackers_decode(magnet_data(self.inner).tr),
    {
        let ghost urls = magnet_data(self.inner).tr;
        let tr = &self.inner.tr;
        let mut i: usize = 0;
        while i < tr.len()
            invariant
                i <= tr.len(),
                tr == self.inner.tr,
                urls == magnet_data(self.inner).tr,
                forall|j: int|
                    0 <= j < i && is_udp(#[trigger] urls[j]) ==> percent_decoded(urls[j]) is Some,
            decreases tr.len() - i,
        {
            let url = tr[i].as_str();
            assert(urls[i as int] == url@);
            if starts_with(url, "udp") && percent_decode(url).is_none() {
                return false;
            }
            i += 1;
        }
        true
    }

    /// Peer addresses. The values associated with `x.pe` entries
    /// in the query of the magnet URI.
    /// See the chapter “magnet URI format”
    /// in [BEP 9](https://bittorrent.org/beps/bep_0009.html)
    /// or [“Magnet URI scheme”](https://en.wikipedia.org/wiki/Magnet_URI_scheme#Format).
    pub fn parse_x_pe(&self) -> (res: &Vec<A>)
        ensures
            *res == self.x_pe,
    {
        &self.x_pe
    }
}

/// Tests [`length_fits`].
pub fn test_length_fits(url: &str) -> (res: bool)
    ensures
        res == length_fits(url@),
{
    proof {
        reveal_strlit("xl=");
    }
    let chars = chars_of(url);
    let name = chars_of("xl=");
    let ghost s = url@;
    let mut i: usize = 0;
    while i < chars.len()
        invariant
            i <= chars.len(),
            chars@ == s,
            s == url@,
            name@ == "xl="@,
            "xl="@.len() == 3,
            forall|j: int| 0 <= j < i ==> !has_length_at(s, j),
        decreases chars.len() - i,
    {
        if is_at(&chars, i, &name) {
            let start: usize = i + 3;
            let mut end: usize = start;
            let mut n: Option<u64> = Some(0);
            assert(s.subrange(start as int, start as int) =~= Seq::empty());
            while end < chars.len() && '0' <= chars[end] && chars[end] <= '9'
                invariant
                    start <= end <= chars.len(),
                    chars@ == s,
                    digits_end(s, start as int) == digits_end(s, end as int),
                    forall|k: int| start <= k < end ==> is_digit(#[trigger] s[k]),
                    match n {
                        Some(n) => n == number(s.subrange(start as int, end as int)),
                        None => number(s.subrange(start as int, end as int)) > u64::MAX,
                    },
                decreases chars.len() - end,
            {
                let ghost digits = s.subrange(start as int, end + 1);
                proof {
                    assert(digits.drop_last() =~= s.subrange(start as int, end as int));
                    assert(digits.last() == s[end as int]);
                }
                let d: u64 = chars[end] as u64 - 48;
                n = match n {
                    Some(n) => if n <= (u64::MAX - d) / 10 {
                        Some(n * 10 + d)
                    } else {
                        None
                    },
                    None => None,
                };
                end += 1;
            }
            assert(digits_end(s, start as int) == end);
            if end == chars.len() || chars[end] == '&' || chars[end] == ' ' || ('\t' <= chars[end]
                && chars[end] <= '\r') {
                assert(has_length_at(s, i as int));
                let res: bool = end > start && n.is_some();
                proof {
                    assert(res == length_fits_at(s, i as int));
                    if res {
                        assert forall|k: int| #[trigger]
                            has_length_at(s, k) && (forall|j: int|
                                0 <= j < k ==> !has_length_at(s, j)) implies length_fits_at(
                            s,
                            k,
                        ) by {
                            assert(k >= 0);
                            assert(k == i);
                        }
                    } else {
                        assert(forall|j: int| 0 <= j < i ==> !has_length_at(s, j));
                    }
                }
                return res;
            }
            assert(!has_length_at(s, i as int));
        }
        i += 1;
    }
    proof {
        assert forall|k: int| !has_length_at(s, k) by {
            if k >= s.len() {
                assert(!holds_at(s, k, "xl="@));
            }
        }
    }
    true
}

} // verus!
