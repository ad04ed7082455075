//! What holds of magnet links.
use crate::magnet::{
    digits_end, has_info_hash, has_length_at, hex_bytes, length_fits, length_fits_at, link_parts,
    link_x_pe, may_give, may_give_all, may_refuse_one, number, removed, tracker_address,
    tracker_addresses, trackers_decode, x_pe_values,
};
use crate::percent::percent_decoded;
use crate::text::holds_at;
use crate::text_laws::{first_part_ends_at_separator, value_of};
use vstd::prelude::*;
use vstd::utf8::*;

verus! {

/// The peer addresses of a link are the values of its `x.pe` entries, in their order.
pub proof fn peer_addresses_are_x_pe_values(pairs: Seq<(Seq<char>, Seq<char>)>)
    ensures
        x_pe_values(pairs) == pairs.filter(
            |p: (Seq<char>, Seq<char>)| p.0 == seq!['x', '.', 'p', 'e'],
        ).map_values(|p: (Seq<char>, Seq<char>)| p.1),
    decreases pairs.len(),
{
    reveal(Seq::filter);
    reveal_strlit("x.pe");
    assert("x.pe"@ =~= seq!['x', '.', 'p', 'e']);
    let value = |p: (Seq<char>, Seq<char>)| p.1;
    let keep = |p: (Seq<char>, Seq<char>)| p.0 == seq!['x', '.', 'p', 'e'];
    if pairs.len() > 0 {
        let front = pairs.drop_last();
        peer_addresses_are_x_pe_values(front);
        if keep(pairs.last()) {
            assert(front.filter(keep).push(pairs.last()).map_values(value) =~= front.filter(
                keep,
            ).map_values(value).push(pairs.last().1));
        }
    } else {
        assert(pairs.filter(keep).map_values(value) =~= Seq::empty());
    }
}

/// The `x.pe` entries are looked for in the query of the link,
/// which starts after `magnet:?` and ends before `#`.
pub proof fn query_is_looked_at(query: Seq<char>, fragment: Seq<char>)
    requires
        !query.contains('#'),
        fragment.len() > 0 ==> fragment[0] == '#',
    ensures
        link_parts("magnet:?"@ + query + fragment)[0] == query,
        link_x_pe("magnet:?"@ + query + fragment) == x_pe_values(crate::magnet::form_pairs(query)),
{
    reveal_strlit("magnet:?");
    let url = "magnet:?"@ + query + fragment;
    assert(url.skip(8) =~= query + fragment);
    first_part_ends_at_separator(query, fragment, '#');
}

/// Whether `url` starts with `udp`.
pub open spec fn starts_with_udp(url: Seq<char>) -> bool {
    url.len() >= 3 && url[0] == 'u' && url[1] == 'd' && url[2] == 'p'
}

proof fn udp_is_a_start(url: Seq<char>)
    ensures
        crate::magnet::is_udp(url) <==> starts_with_udp(url),
{
    reveal_strlit("udp");
    if url.len() >= 3 {
        let start = url.subrange(0, 3);
        assert(start[0] == url[0] && start[1] == url[1] && start[2] == url[2]);
        if starts_with_udp(url) {
            assert(start =~= "udp"@);
        }
    }
}

/// The trackers of a link are those whose URLs start with `udp`, in their order.
pub proof fn udp_trackers_are_kept(urls: Seq<Seq<char>>)
    ensures
        tracker_addresses(urls) == urls.filter(
            |url: Seq<char>| starts_with_udp(url),
        ).map_values(|url: Seq<char>| tracker_address(url)),
        trackers_decode(urls) <==> forall|i: int|
            0 <= i < urls.len() && starts_with_udp(#[trigger] urls[i]) ==> percent_decoded(urls[i])
                is Some,
    decreases urls.len(),
{
    reveal(Seq::filter);
    let address = |url: Seq<char>| tracker_address(url);
    let keep = |url: Seq<char>| starts_with_udp(url);
    assert forall|i: int| 0 <= i < urls.len() implies (crate::magnet::is_udp(#[trigger] urls[i])
        <==> starts_with_udp(urls[i])) by {
        udp_is_a_start(urls[i]);
    }
    if urls.len() > 0 {
        let front = urls.drop_last();
        udp_trackers_are_kept(front);
        udp_is_a_start(urls.last());
        if keep(urls.last()) {
            assert(front.filter(keep).push(urls.last()).map_values(address) =~= front.filter(
                keep,
            ).map_values(address).push(tracker_address(urls.last())));
        }
    } else {
        assert(urls.filter(keep).map_values(address) =~= Seq::empty());
    }
}

/// A text without the part to remove stays as it is, and a text that starts with the part
/// is what comes of the rest.
pub proof fn part_is_removed(s: Seq<char>, part: Seq<char>)
    requires
        part.len() > 0,
    ensures
        (forall|i: int| !#[trigger] holds_at(s, i, part)) ==> removed(s, part) == s,
        removed(part + s, part) == removed(s, part),
    decreases s.len(),
{
    let all = part + s;
    assert(all.subrange(0, part.len() as int) =~= part);
    assert(holds_at(all, 0, part));
    assert(all.skip(part.len() as int) =~= s);
    if s.len() > 0 && forall|i: int| !#[trigger] holds_at(s, i, part) {
        let rest = s.skip(1);
        assert forall|i: int| !#[trigger] holds_at(rest, i, part) by {
            if holds_at(rest, i, part) {
                assert(rest.subrange(i, i + part.len()) =~= s.subrange(i + 1, i + 1 + part.len()));
                assert(holds_at(s, i + 1, part));
            }
        }
        part_is_removed(rest, part);
        assert(!holds_at(s, 0, part));
        assert(seq![s[0]] + rest =~= s);
    }
}

/// The socket address of a tracker is what stands between `udp://` and the next `/`,
/// or all that follows `udp://` if there is no `/`.
pub proof fn tracker_address_is_the_authority(url: Seq<char>, host: Seq<char>, rest: Seq<char>)
    requires
        percent_decoded(url) == Some("udp://"@ + host + rest),
        !host.contains('/'),
        rest.len() > 0 ==> rest[0] == '/',
        rest.len() > 1 ==> rest[1] != '/',
    ensures
        tracker_address(url) == host,
{
    reveal_strlit("udp://");
    let part = "udp://"@;
    let s = host + rest;
    assert(part + host + rest =~= part + s);
    part_is_removed(s, part);
    host_is_kept(host, rest);
    first_part_ends_at_separator(host, removed(rest, part), '/');
}

proof fn host_is_kept(host: Seq<char>, rest: Seq<char>)
    requires
        !host.contains('/'),
        rest.len() > 0 ==> rest[0] == '/',
        rest.len() > 1 ==> rest[1] != '/',
    ensures
        removed(host + rest, "udp://"@) == host + removed(rest, "udp://"@),
        removed(rest, "udp://"@).len() > 0 ==> removed(rest, "udp://"@)[0] == '/',
    decreases host.len(),
{
    reveal_strlit("udp://");
    let part = "udp://"@;
    let s = host + rest;
    if rest.len() > 0 && holds_at(rest, 0, part) {
        assert(rest.subrange(0, 6)[0] == rest[0]);
    }
    if host.len() == 0 {
        assert(s =~= rest);
        assert(host + removed(rest, part) =~= removed(rest, part));
    } else {
        let tail = host.skip(1);
        assert(!tail.contains('/')) by {
            if tail.contains('/') {
                let i = tail.index_of('/');
                assert(host[i + 1] == '/');
            }
        }
        host_is_kept(tail, rest);
        assert(s.skip(1) =~= tail + rest);
        if holds_at(s, 0, part) {
            let start = s.subrange(0, 6);
            assert(start[4] == s[4] && start[5] == s[5]);
            if host.len() > 4 {
                assert(host[4] == '/');
                assert(host.contains(host[4]));
            } else if host.len() == 4 {
                assert(s[5] == rest[1]);
            } else {
                assert(start[host.len() as int] == s[host.len() as int]);
                assert(s[host.len() as int] == rest[0]);
            }
        }
        assert(seq![s[0]] + (tail + removed(rest, part)) =~= host + removed(rest, part));
    }
}

/// A link has an info hash iff its exact topic stands for at least twenty bytes.
pub proof fn exact_topic_has_info_hash(xt: Option<Seq<char>>)
    ensures
        xt is None ==> !has_info_hash(xt),
        xt matches Some(text) ==> (has_info_hash(xt) <==> match hex_bytes(encode_utf8(text)) {
            Some(bytes) => bytes.len() >= 20,
            None => false,
        }),
{
}

/// Whether `parse` may give `address` for a text that holds `text`.
pub open spec fn is_answer<A, F: Fn(&String) -> Option<A>>(
    parse: F,
    text: Seq<char>,
    address: Option<A>,
) -> bool {
    exists|s: &String| s@ == text && #[trigger] parse.ensures((s,), address)
}

/// The addresses of the peers are what the parser gives for the texts, one for each and in their
/// order, and there are none only if it gives none for one of the texts.
pub proof fn addresses_answer_texts<A, F: Fn(&String) -> Option<A>>(
    parse: F,
    texts: Seq<Seq<char>>,
    addresses: Seq<A>,
)
    ensures
        may_give_all(parse, texts, addresses) <==> addresses.len() == texts.len() && forall|i: int|
            0 <= i < texts.len() ==> is_answer(parse, #[trigger] texts[i], Some(addresses[i])),
        may_refuse_one::<A, F>(parse, texts) <==> exists|i: int|
            0 <= i < texts.len() && is_answer(parse, #[trigger] texts[i], None::<A>),
{
    assert forall|text: Seq<char>, address: Option<A>| #[trigger]
        is_answer(parse, text, address) <==> may_give(parse, text, address) by {}
    assert forall|text: Seq<char>, address: Option<A>| #[trigger]
        may_give(parse, text, address) <==> is_answer(parse, text, address) by {}
}

proof fn numbers_agree(digits: Seq<char>)
    requires
        forall|i: int| 0 <= i < digits.len() ==> '0' <= #[trigger] digits[i] <= '9',
    ensures
        number(digits) == value_of(digits),
    decreases digits.len(),
{
    if digits.len() > 0 {
        let front = digits.drop_last();
        assert forall|i: int| 0 <= i < front.len() implies '0' <= #[trigger] front[i] <= '9' by {
            assert(digits[i] == front[i]);
        }
        numbers_agree(front);
        assert('0' <= digits[digits.len() - 1] <= '9');
    }
}

proof fn digits_end_here(s: Seq<char>, i: int, end: int)
    requires
        0 <= i <= end <= s.len(),
        forall|k: int| i <= k < end ==> '0' <= #[trigger] s[k] <= '9',
        end < s.len() ==> !('0' <= s[end] <= '9'),
    ensures
        digits_end(s, i) == end,
    decreases end - i,
{
    if i < end {
        digits_end_here(s, i + 1, end);
    }
}

/// A link with an exact length in decimal digits can be read iff the number has 64 bits.
pub proof fn exact_length_is_a_number(s: Seq<char>, i: int, end: int)
    requires
        0 <= i,
        i + 3 < end <= s.len(),
        s[i] == 'x' && s[i + 1] == 'l' && s[i + 2] == '=',
        forall|j: int| 0 <= j < i ==> !(#[trigger] s[j] == 'x' && s[j + 1] == 'l' && s[j + 2] == '='),
        forall|k: int| i + 3 <= k < end ==> '0' <= #[trigger] s[k] <= '9',
        end < s.len() ==> s[end] == '&',
    ensures
        length_fits(s) <==> value_of(s.subrange(i + 3, end)) <= u64::MAX,
{
    reveal_strlit("xl=");
    digits_end_here(s, i + 3, end);
    let digits = s.subrange(i + 3, end);
    numbers_agree(digits);
    assert(s.subrange(i, i + 3) =~= "xl="@);
    assert(has_length_at(s, i));
    assert forall|j: int| 0 <= j < i implies !has_length_at(s, j) by {
        if holds_at(s, j, "xl="@) {
            let here = s.subrange(j, j + 3);
            assert(here[0] == s[j] && here[1] == s[j + 1] && here[2] == s[j + 2]);
        }
    }
    if length_fits_at(s, i) {
        assert forall|k: int| #[trigger]
            has_length_at(s, k) && (forall|j: int|
                0 <= j < k ==> !has_length_at(s, j)) implies length_fits_at(s, k) by {
            assert(k == i);
        }
    }
}

/// A link without an exact length can be read.
pub proof fn link_without_length_fits(s: Seq<char>)
    requires
        forall|j: int|
            0 <= j < s.len() - 2 ==> !(#[trigger] s[j] == 'x' && s[j + 1] == 'l' && s[j + 2]
                == '='),
    ensures
        length_fits(s),
{
    reveal_strlit("xl=");
    assert forall|j: int| !has_length_at(s, j) by {
        if holds_at(s, j, "xl="@) {
            let here = s.subrange(j, j + 3);
            assert(here[0] == s[j] && here[1] == s[j + 1] && here[2] == s[j + 2]);
        }
    }
}

/// The first occurrence of a part is removed, what stands before it stays,
/// and removing goes on after it.
pub proof fn first_occurrence_is_removed(a: Seq<char>, part: Seq<char>, b: Seq<char>)
    requires
        part.len() > 0,
        forall|i: int| 0 <= i < a.len() ==> !#[trigger] holds_at(a + part + b, i, part),
    ensures
        removed(a + part + b, part) == a + removed(b, part),
    decreases a.len(),
{
    let s = a + part + b;
    if a.len() == 0 {
        assert(s =~= part + b);
        part_is_removed(b, part);
        assert(a + removed(b, part) =~= removed(b, part));
    } else {
        let tail = a.skip(1);
        let rest = tail + part + b;
        assert(s.skip(1) =~= rest);
        assert forall|i: int| 0 <= i < tail.len() implies !#[trigger] holds_at(rest, i, part) by {
            if holds_at(rest, i, part) {
                assert(rest.subrange(i, i + part.len()) =~= s.subrange(i + 1, i + 1 + part.len()));
                assert(holds_at(s, i + 1, part));
            }
        }
        first_occurrence_is_removed(tail, part, b);
        assert(!holds_at(s, 0, part));
        assert(seq![s[0]] + (tail + removed(b, part)) =~= a + removed(b, part));
    }
}

} // verus!
