//! URI paths of torrent files.
use crate::base64_text::{
    base64, base64_append, base64_chars, base64_decode, base64_is_injective, base64_len,
};
use crate::disk::slice::{InfoHash, INFO_HASH_BYTE_N_USIZE};
use crate::percent::{
    encoded_chars, percent_decode, percent_decoded, percent_encode, percent_encoded,
    percent_round_trip,
};
use crate::text::{split, split_append, split_is_not_empty, split_separator, split_text, texts};
use crate::text_laws::{
    first_part_ends_at_separator, rejoined, second_part_exists, split_parts_rejoin,
    split_undoes_rejoining,
};
use vstd::prelude::*;
use vstd::string::*;
use vstd::utf8::*;

verus! {

/// The percent-encodings of the components `path`, each after a `/`.
pub open spec fn encoded_path(path: Seq<Seq<char>>) -> Seq<char>
    decreases path.len(),
{
    if path.len() == 0 {
        Seq::empty()
    } else {
        encoded_path(path.drop_last()).push('/') + percent_encoded(path.last())
    }
}

/// The URI path to the file at `path` in the torrent `info_hash`.
pub open spec fn uri_path(info_hash: Seq<u8>, path: Seq<Seq<char>>) -> Seq<char> {
    seq!['/'] + base64(info_hash) + encoded_path(path)
}

/// Returns the URI path to the torrent file identified by arguments.
pub fn render_uri_path_unchecked(info_hash: &InfoHash, path: &Vec<String>) -> (res: String)
    ensures
        res@ == uri_path(info_hash@, texts(path@)),
{
    let ghost components = texts(path@);
    let mut res = String::new();
    res.push('/');
    base64_append(info_hash.as_slice(), &mut res);
    let ghost start = res@;
    let mut i: usize = 0;
    proof {
        assert(start =~= seq!['/'] + base64(info_hash@));
        assert(components.take(0) =~= Seq::empty());
    }
    while i < path.len()
        invariant
            i <= path.len(),
            components == texts(path@),
            res@ =~= start + encoded_path(components.take(i as int)),
        decreases path.len() - i,
    {
        proof {
            assert(components.take(i + 1).drop_last() =~= components.take(i as int));
            assert(components.take(i + 1).last() == path@[i as int]@);
        }
        res.push('/');
        res.append(percent_encode(path[i].as_str()).as_str());
        i += 1;
    }
    assert(components.take(i as int) =~= components);
    res
}

/// Whether `text` is the encoding of an info hash.
pub open spec fn encodes_info_hash(text: Seq<char>) -> bool {
    exists|info_hash: Seq<u8>|
        info_hash.len() == INFO_HASH_BYTE_N_USIZE && #[trigger] base64(info_hash) == text
}

/// Decodes an info hash.
pub fn decode_info_hash(info_hash: &str) -> (res: Result<InfoHash, ()>)
    ensures
        res is Ok <==> encodes_info_hash(info_hash@),
        res matches Ok(hash) ==> base64(hash@) == info_hash@,
{
    proof {
        if encodes_info_hash(info_hash@) {
            let hash = choose|hash: Seq<u8>|
                hash.len() == INFO_HASH_BYTE_N_USIZE && #[trigger] base64(hash) == info_hash@;
            base64_len(hash);
            assert forall|i: int| 0 <= i < info_hash@.len() implies 0
                <= #[trigger] info_hash@[i] as int <= 127 by {
                base64_chars(hash, i);
            }
            assert(is_ascii_chars(info_hash@));
            is_ascii_chars_encode_utf8(info_hash@);
        }
    }
    if info_hash.len() != INFO_HASH_BASE64_CHAR_N {
        return Err(());
    }
    match base64_decode(info_hash) {
        None => Err(()),
        Some(bytes) => if bytes.len() != INFO_HASH_BYTE_N_USIZE {
            proof {
                if encodes_info_hash(info_hash@) {
                    let hash = choose|hash: Seq<u8>|
                        hash.len() == INFO_HASH_BYTE_N_USIZE && #[trigger] base64(hash)
                            == info_hash@;
                    base64_is_injective(hash, bytes@);
                }
            }
            Err(())
        } else {
            assert(bytes@.take(INFO_HASH_BYTE_N_USIZE as int) =~= bytes@);
            Ok(hash_of(&bytes))
        },
    }
}

/// The number of characters in a Base64 encoding of a SHA-1 hash.
const INFO_HASH_BASE64_CHAR_N: usize = 28;

/// The first bytes of `bytes` as an info hash.
pub fn hash_of(bytes: &Vec<u8>) -> (res: InfoHash)
    requires
        bytes@.len() >= INFO_HASH_BYTE_N_USIZE,
    ensures
        res@ == bytes@.take(INFO_HASH_BYTE_N_USIZE as int),
{
    let mut res: InfoHash = [0u8; INFO_HASH_BYTE_N_USIZE];
    let mut i: usize = 0;
    while i < INFO_HASH_BYTE_N_USIZE
        invariant
            i <= INFO_HASH_BYTE_N_USIZE,
            res@.len() == INFO_HASH_BYTE_N_USIZE,
            bytes@.len() >= INFO_HASH_BYTE_N_USIZE,
            forall|j: int| 0 <= j < i ==> res@[j] == #[trigger] bytes@[j],
        decreases INFO_HASH_BYTE_N_USIZE - i,
    {
        res[i] = bytes[i];
        i += 1;
    }
    assert(res@ =~= bytes@.take(INFO_HASH_BYTE_N_USIZE as int));
    res
}

/// What is wrong with a URI path.
#[derive(Clone, Copy, Debug, PartialEq, Eq, Structural)]
pub enum ParseUriPathError {
    /// Splitting the URI path yielded zero elements.
    Split,
    /// The URI path should start with '/'.
    StartSlash,
    /// The URI path should start with an info hash.
    NoInfoHash,
    /// Invalid info hash in the URI path.
    InvalidInfoHash,
    /// A URI path component is not encoded with UTF-8.
    FromUtf8,
}

/// What is wrong with the URI path `uri`.
pub open spec fn uri_path_error(uri: Seq<char>) -> Option<ParseUriPathError> {
    let parts = split(uri, '/');
    if parts[0].len() > 0 {
        Some(ParseUriPathError::StartSlash)
    } else if parts.len() == 1 {
        Some(ParseUriPathError::NoInfoHash)
    } else if !encodes_info_hash(parts[1]) {
        Some(ParseUriPathError::InvalidInfoHash)
    } else if exists|i: int|
        2 <= i < parts.len() && percent_decoded(#[trigger] parts[i]) is None {
        Some(ParseUriPathError::FromUtf8)
    } else {
        None
    }
}

/// Whether the URI path `uri` refers to the file at `path` in the torrent `info_hash`.
pub open spec fn refers_to(uri: Seq<char>, info_hash: Seq<u8>, path: Seq<Seq<char>>) -> bool {
    let parts = split(uri, '/');
    &&& parts.len() >= 2
    &&& parts[0].len() == 0
    &&& info_hash.len() == INFO_HASH_BYTE_N_USIZE
    &&& parts[1] == base64(info_hash)
    &&& path.len() == parts.len() - 2
    &&& forall|i: int| 0 <= i < path.len() ==> percent_decoded(parts[i + 2]) == Some(#[trigger] path[i])
}

/// Web routing.
/// Validates and converts a URI path to a file in a torrent.
/// If it returns `Ok((info_hash, path))`, then `uri_path` refers
/// to the file in the torrent identified by `info_hash`
/// at `path` relative to the root of the torrent.
pub fn parse_uri_path(uri_path: &str) -> (res: Result<(InfoHash, Vec<String>), ParseUriPathError>)
    ensures
        res is Ok <==> uri_path_error(uri_path@) is None,
        match res {
            Ok((info_hash, path)) => refers_to(uri_path@, info_hash@, texts(path@)),
            Err(e) => Some(e) == uri_path_error(uri_path@),
        },
{
    let parts = split_text(uri_path, '/');
    let ghost all = split(uri_path@, '/');
    proof {
        split_is_not_empty(uri_path@, '/');
    }
    if parts.len() == 0 {
        return Err(ParseUriPathError::Split);
    }
    assert(all[0] == parts@[0]@);
    if !parts[0].as_str().is_empty() {
        return Err(ParseUriPathError::StartSlash);
    }
    if parts.len() == 1 {
        return Err(ParseUriPathError::NoInfoHash);
    }
    assert(all[1] == parts@[1]@);
    let info_hash = match decode_info_hash(parts[1].as_str()) {
        Ok(info_hash) => info_hash,
        Err(_) => {
            return Err(ParseUriPathError::InvalidInfoHash);
        },
    };
    let mut path: Vec<String> = Vec::new();
    let mut i: usize = 2;
    while i < parts.len()
        invariant
            2 <= i <= parts.len(),
            all == split(uri_path@, '/'),
            texts(parts@) == all,
            all[0].len() == 0,
            encodes_info_hash(all[1]),
            path@.len() == i - 2,
            forall|j: int|
                0 <= j < path@.len() ==> percent_decoded(all[j + 2]) == Some(
                    #[trigger] texts(path@)[j],
                ),
        decreases parts.len() - i,
    {
        assert(all[i as int] == parts@[i as int]@);
        match percent_decode(parts[i].as_str()) {
            None => {
                assert(percent_decoded(all[i as int]) is None);
                return Err(ParseUriPathError::FromUtf8);
            },
            Some(component) => {
                let ghost before = path@;
                path.push(component);
                proof {
                    assert(texts(path@) =~= texts(before).push(component@));
                    assert forall|j: int| 0 <= j < path@.len() implies percent_decoded(all[j + 2])
                        == Some(#[trigger] texts(path@)[j]) by {
                        if j < before.len() {
                            assert(texts(before)[j] == texts(path@)[j]);
                        }
                    }
                }
            },
        }
        i += 1;
    }
    proof {
        assert(uri_path_error(uri_path@) is None) by {
            assert forall|k: int| 2 <= k < all.len() implies percent_decoded(#[trigger] all[k]) is Some by {
                assert(percent_decoded(all[(k - 2) + 2]) == Some(texts(path@)[k - 2]));
            }
        }
    }
    Ok((info_hash, path))
}

/// The parts of the URI path to a file.
proof fn uri_path_parts(info_hash: Seq<u8>, path: Seq<Seq<char>>)
    ensures
        split(uri_path(info_hash, path), '/') =~= seq![Seq::<char>::empty(), base64(info_hash)]
            + path.map_values(|s: Seq<char>| percent_encoded(s)),
    decreases path.len(),
{
    let encode = |s: Seq<char>| percent_encoded(s);
    if path.len() == 0 {
        let none = Seq::<char>::empty();
        split_separator(none, '/');
        assert(none.push('/') =~= seq!['/']);
        assert forall|i: int| 0 <= i < base64(info_hash).len() implies #[trigger] base64(
            info_hash,
        )[i] != '/' by {
            base64_chars(info_hash, i);
        }
        split_append(seq!['/'], base64(info_hash), '/');
        assert(uri_path(info_hash, path) =~= seq!['/'] + base64(info_hash));
        assert(split(seq!['/'], '/') =~= seq![none, none]);
        assert(none + base64(info_hash) =~= base64(info_hash));
    } else {
        let front = path.drop_last();
        let last = percent_encoded(path.last());
        uri_path_parts(info_hash, front);
        let start = uri_path(info_hash, front);
        assert(uri_path(info_hash, path) =~= start.push('/') + last);
        split_separator(start, '/');
        assert forall|i: int| 0 <= i < last.len() implies #[trigger] last[i] != '/' by {
            encoded_chars(encode_utf8(path.last()), i);
        }
        split_append(start.push('/'), last, '/');
        let parts = split(start, '/');
        assert(parts.push(Seq::empty()).drop_last() =~= parts);
        assert(Seq::empty() + last =~= last);
        assert(path.map_values(encode) =~= front.map_values(encode).push(last));
    }
}

/// The URI path that is rendered for a file refers to this file.
pub proof fn rendered_path_refers(info_hash: Seq<u8>, path: Seq<Seq<char>>)
    requires
        info_hash.len() == INFO_HASH_BYTE_N_USIZE,
    ensures
        refers_to(uri_path(info_hash, path), info_hash, path),
        uri_path_error(uri_path(info_hash, path)) is None,
{
    let uri = uri_path(info_hash, path);
    let parts = split(uri, '/');
    uri_path_parts(info_hash, path);
    assert(parts[0].len() == 0);
    assert(parts[1] == base64(info_hash));
    assert forall|i: int| 0 <= i < path.len() implies percent_decoded(parts[i + 2]) == Some(
        #[trigger] path[i],
    ) by {
        percent_round_trip(path[i]);
    }
    assert(encodes_info_hash(parts[1]));
    assert forall|k: int| 2 <= k < parts.len() implies percent_decoded(#[trigger] parts[k]) is Some by {
        percent_round_trip(path[k - 2]);
    }
}

/// A URI path refers to one file at most.
pub proof fn reference_is_unique(
    uri: Seq<char>,
    a: Seq<u8>,
    b: Seq<u8>,
    p: Seq<Seq<char>>,
    q: Seq<Seq<char>>,
)
    requires
        refers_to(uri, a, p),
        refers_to(uri, b, q),
    ensures
        a == b,
        p == q,
{
    base64_is_injective(a, b);
    let parts = split(uri, '/');
    assert forall|i: int| 0 <= i < p.len() implies #[trigger] p[i] == q[i] by {
        assert(percent_decoded(parts[i + 2]) == Some(p[i]));
        assert(percent_decoded(parts[i + 2]) == Some(q[i]));
    }
    assert(p =~= q);
}

/// The URI path to a file consists of the encoded info hash and the encoded components
/// of the path of the file, each after a `/`.
pub proof fn rendered_path_is_joined(info_hash: Seq<u8>, path: Seq<Seq<char>>)
    ensures
        uri_path(info_hash, path) == rejoined(
            seq![Seq::<char>::empty(), base64(info_hash)] + path.map_values(
                |s: Seq<char>| percent_encoded(s),
            ),
            '/',
        ),
{
    uri_path_parts(info_hash, path);
    split_parts_rejoin(uri_path(info_hash, path), '/');
}

/// A URI path refers to a file iff it starts with `/`, the encoding of an info hash follows,
/// and then the encodings of components, each after a `/`.
/// Else it is told what is wrong: first of the info hash, then of the components.
pub proof fn uri_path_is_taken_apart(
    hash: Seq<char>,
    components: Seq<Seq<char>>,
    uri: Seq<char>,
)
    requires
        !hash.contains('/'),
        forall|i: int| 0 <= i < components.len() ==> !(#[trigger] components[i]).contains('/'),
        uri == rejoined(seq![Seq::<char>::empty(), hash] + components, '/'),
    ensures
        uri_path_error(uri) == Some(ParseUriPathError::InvalidInfoHash) <==> forall|h: Seq<u8>|
            h.len() == 20 ==> #[trigger] base64(h) != hash,
        uri_path_error(uri) == Some(ParseUriPathError::FromUtf8) <==> (exists|h: Seq<u8>|
            h.len() == 20 && #[trigger] base64(h) == hash) && (exists|i: int|
            0 <= i < components.len() && percent_decoded(#[trigger] components[i]) is None),
        uri_path_error(uri) != Some(ParseUriPathError::StartSlash),
        uri_path_error(uri) != Some(ParseUriPathError::NoInfoHash),
        forall|h: Seq<u8>, path: Seq<Seq<char>>| #[trigger]
            refers_to(uri, h, path) <==> {
                &&& h.len() == 20
                &&& base64(h) == hash
                &&& path.len() == components.len()
                &&& forall|i: int|
                    0 <= i < path.len() ==> percent_decoded(components[i]) == Some(
                        #[trigger] path[i],
                    )
            },
{
    let none = Seq::<char>::empty();
    let parts = seq![none, hash] + components;
    assert forall|i: int| 0 <= i < parts.len() implies !(#[trigger] parts[i]).contains('/') by {
        if i >= 2 {
            assert(parts[i] == components[i - 2]);
        }
    }
    split_undoes_rejoining(parts, '/');
    if exists|i: int| 0 <= i < components.len() && percent_decoded(#[trigger] components[i]) is None {
        let i = choose|i: int|
            0 <= i < components.len() && percent_decoded(#[trigger] components[i]) is None;
        assert(percent_decoded(parts[i + 2]) is None);
    }
    if exists|i: int| 2 <= i < parts.len() && percent_decoded(#[trigger] parts[i]) is None {
        let i = choose|i: int| 2 <= i < parts.len() && percent_decoded(#[trigger] parts[i]) is None;
        assert(percent_decoded(components[i - 2]) is None);
    }
    assert forall|h: Seq<u8>, path: Seq<Seq<char>>| #[trigger]
        refers_to(uri, h, path) <==> {
            &&& h.len() == 20
            &&& base64(h) == hash
            &&& path.len() == components.len()
            &&& forall|i: int|
                0 <= i < path.len() ==> percent_decoded(components[i]) == Some(#[trigger] path[i])
        } by {
        if path.len() == components.len() {
            assert forall|i: int| 0 <= i < path.len() implies parts[i + 2]
                == #[trigger] components[i] by {}
        }
    }
}

/// A URI path that does not start with `/` is refused for this,
/// an empty one because it has no info hash.
pub proof fn uri_path_starts_with_slash(uri: Seq<char>)
    ensures
        uri_path_error(uri) == Some(ParseUriPathError::StartSlash) <==> uri.len() > 0 && uri[0]
            != '/',
        uri_path_error(uri) == Some(ParseUriPathError::NoInfoHash) <==> uri.len() == 0,
        uri_path_error(uri) != Some(ParseUriPathError::Split),
{
    let none = Seq::<char>::empty();
    split_is_not_empty(uri, '/');
    if uri.len() == 0 {
        assert(split(uri, '/') =~= seq![none]);
    } else if uri[0] == '/' {
        assert(none + uri =~= uri);
        first_part_ends_at_separator(none, uri, '/');
        second_part_exists(none, uri, '/');
    } else {
        let k = first_slash(uri, 0);
        let a = uri.take(k);
        let b = uri.skip(k);
        assert(a + b =~= uri);
        first_part_ends_at_separator(a, b, '/');
        if k == 0 {
            assert(b[0] == uri[0]);
        }
    }
}

proof fn first_slash(uri: Seq<char>, from: int) -> (k: int)
    requires
        0 <= from <= uri.len(),
        !uri.take(from).contains('/'),
    ensures
        from <= k <= uri.len(),
        !uri.take(k).contains('/'),
        k < uri.len() ==> uri.skip(k)[0] == '/',
    decreases uri.len() - from,
{
    if from == uri.len() || uri[from] == '/' {
        from
    } else {
        let next = uri.take(from + 1);
        if next.contains('/') {
            let i = next.index_of('/');
            if i < from {
                assert(uri.take(from)[i] == '/');
            }
        }
        first_slash(uri, from + 1)
    }
}

/// Nothing is wrong with a URI path iff it refers to a file.
pub proof fn good_path_refers(uri: Seq<char>)
    ensures
        uri_path_error(uri) is None <==> exists|h: Seq<u8>, path: Seq<Seq<char>>| #[trigger]
            refers_to(uri, h, path),
{
    let parts = split(uri, '/');
    if uri_path_error(uri) is None {
        split_is_not_empty(uri, '/');
        let h = choose|h: Seq<u8>|
            h.len() == INFO_HASH_BYTE_N_USIZE && #[trigger] base64(h) == parts[1];
        let path = Seq::new((parts.len() - 2) as nat, |i: int| percent_decoded(parts[i + 2])->0);
        assert forall|i: int| 0 <= i < path.len() implies percent_decoded(parts[i + 2]) == Some(
            #[trigger] path[i],
        ) by {
            assert(percent_decoded(parts[i + 2]) is Some);
        }
        assert(refers_to(uri, h, path));
    }
    if exists|h: Seq<u8>, path: Seq<Seq<char>>| #[trigger] refers_to(uri, h, path) {
        let (h, path) = choose|h: Seq<u8>, path: Seq<Seq<char>>| #[trigger]
            refers_to(uri, h, path);
        assert(encodes_info_hash(parts[1]));
        assert forall|i: int| 2 <= i < parts.len() implies percent_decoded(#[trigger] parts[i]) is Some by {
            assert(percent_decoded(parts[(i - 2) + 2]) == Some(path[i - 2]));
        }
    }
}

} // verus!
