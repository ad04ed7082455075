//! What holds of serving files of torrents.
use crate::disk::layout_laws::{content_size, summary_is_faithful, total_length};
use crate::disk::slice::{InfoHash, SliceId};
use crate::disk::slice_laws::{is_file, range_in_file_makes_slice};
use crate::disk::{is_file_by_path, is_new_slice, DiskData, FileByPathR, SliceError};
use crate::http_server::content_range::{satisfied_text, unsatisfied_text, ContentRange};
use crate::http_server::range_header::{
    ascii, first_index, header_ranges, is_parsed_rh, last_index, rh_refusal, unsatisfiable,
    ParseRhError, RhInFileError,
};
use crate::http_server::service::{
    is_file_service, is_path_service, FileService, RespHead, Service,
};
use crate::text::texts;
use crate::text_laws::{decimal_writes_number, writes_number};
use crate::uri_path::{
    good_path_refers, reference_is_unique, refers_to, rendered_path_refers, uri_path,
    uri_path_starts_with_slash,
};
use http_range_header::{
    EndPosition, ParsedRanges, StartPosition, SyntacticallyCorrectRange,
};
use std::ops::RangeInclusive;
use vstd::prelude::*;

verus! {

/// Whether `text` tells a range of content: `bytes `, the first byte, `-`, the last byte, `/`,
/// and the length of the content, or `*` if it is not known.
pub open spec fn tells_range(text: Seq<char>, first: nat, last: nat, length: Option<nat>) -> bool {
    exists|a: Seq<char>, b: Seq<char>, c: Seq<char>|
        #![trigger writes_number(a, first), writes_number(b, last), c.len()]
        {
            &&& text == "bytes "@ + a + "-"@ + b + "/"@ + c
            &&& writes_number(a, first)
            &&& writes_number(b, last)
            &&& match length {
                Some(length) => writes_number(c, length),
                None => c == "*"@,
            }
        }
}

/// Whether `text` tells that content of `length` bytes does not have a range:
/// `bytes */` and the length.
pub open spec fn tells_no_range(text: Seq<char>, length: nat) -> bool {
    exists|a: Seq<char>| text == "bytes "@ + "*/"@ + a && #[trigger] writes_number(a, length)
}

/// The Content-Range header tells the range and the length in decimal numbers.
pub proof fn content_range_tells_range(first: nat, last: nat, length: u64)
    ensures
        tells_range(satisfied_text(first, last, Some(length)), first, last, Some(length as nat)),
        tells_range(satisfied_text(first, last, None), first, last, None),
        tells_no_range(unsatisfied_text(length), length as nat),
{
    decimal_writes_number(first);
    decimal_writes_number(last);
    decimal_writes_number(length as nat);
    let a = crate::text::decimal(first);
    let b = crate::text::decimal(last);
    let c = crate::text::decimal(length as nat);
    let star = "*"@;
    assert(writes_number(a, first) && writes_number(b, last) && c.len() == c.len());
    assert(star.len() == star.len());
    assert(writes_number(c, length as nat));
}

/// The value of a Content-Range header tells what the header stands for.
pub proof fn header_tells_its_range(range: RangeInclusive<u64>, length: u64)
    ensures
        tells_range(
            (ContentRange::Satisfied { range, complete_length: Some(length) }).text(),
            range@.start as nat,
            range@.end as nat,
            Some(length as nat),
        ),
        tells_range(
            (ContentRange::Satisfied { range, complete_length: None }).text(),
            range@.start as nat,
            range@.end as nat,
            None,
        ),
        tells_no_range(
            (ContentRange::Unsatisfied { complete_length: length }).text(),
            length as nat,
        ),
{
    content_range_tells_range(range@.start as nat, range@.end as nat, length);
}

/// Whether the head of a response holds the header with the name `name` and the value `value`.
pub open spec fn has_header(head: RespHead, name: Seq<char>, value: Seq<char>) -> bool {
    exists|k: int|
        0 <= k < head.headers@.len() && (#[trigger] head.headers@[k]).0@ == name
            && head.headers@[k].1@ == value
}

/// Whether the head of a response tells that parts of the content can be asked for.
pub open spec fn accepts_ranges(head: RespHead) -> bool {
    has_header(head, "accept-ranges"@, "bytes"@)
}

proof fn header_is_there(head: RespHead, k: int, name: Seq<char>, value: Seq<char>)
    requires
        0 <= k < head@.headers.len(),
        head@.headers[k] == (name, value),
    ensures
        has_header(head, name, value),
        head.headers@.len() == head@.headers.len(),
        head.headers@[k].0@ == name,
        head.headers@[k].1@ == value,
{
    assert(head.headers@.len() == head@.headers.len());
    assert(head@.headers[k] == (head.headers@[k].0@, head.headers@[k].1@));
    assert(head.headers@[k].0@ == name && head.headers@[k].1@ == value);
}

/// A file that is not found is answered with 404.
pub proof fn missing_file_is_answered(info_hash: InfoHash, rh: Option<ParsedRanges>, res: FileService)
    requires
        is_file_service(info_hash, rh, None, res),
    ensures
        res matches FileService::Respond(head) && head.status == 404 && accepts_ranges(head)
            && head.headers@.len() == 1,
{
    header_is_there(res->Respond_0, 0, "accept-ranges"@, "bytes"@);
}

/// The whole file is served if no part is asked for.
pub proof fn whole_file_is_served(info_hash: InfoHash, file: FileByPathR, res: FileService)
    requires
        is_file_service(info_hash, None, Some(file), res),
    ensures
        res matches FileService::NewSlice { file_id, range, head } && {
            &&& file_id.info_hash == info_hash
            &&& file_id.i == file.i
            &&& range.start == 0
            &&& range.end == file.len
            &&& head.status == 200
            &&& accepts_ranges(head)
            &&& has_header(head, "content-type"@, "application/octet-stream"@)
            &&& head.headers@.len() == 2
        },
{
    let head = res->NewSlice_head;
    header_is_there(head, 0, "accept-ranges"@, "bytes"@);
    header_is_there(head, 1, "content-type"@, "application/octet-stream"@);
}

/// Whether `res` serves the bytes from `start` up to `end` of the file,
/// with a head that tells these bytes and the length of the file.
pub open spec fn serves_part(
    info_hash: InfoHash,
    file: FileByPathR,
    start: int,
    end: int,
    res: FileService,
) -> bool {
    res matches FileService::NewSlice { file_id, range, head } && {
        &&& file_id.info_hash == info_hash
        &&& file_id.i == file.i
        &&& range.start == start
        &&& range.end == end
        &&& head.status == 206
        &&& accepts_ranges(head)
        &&& has_header(head, "content-type"@, "application/octet-stream"@)
        &&& head.headers@.len() == 3
        &&& head.headers@[1].0@ == "content-range"@
        &&& tells_range(
            head.headers@[1].1@,
            start as nat,
            (end - 1) as nat,
            Some(file.len as nat),
        )
    }
}

/// Whether `res` is the answer that the file does not have the part that is asked for.
pub open spec fn refuses_part(file: FileByPathR, res: FileService) -> bool {
    res matches FileService::Respond(head) && {
        &&& head.status == 416
        &&& accepts_ranges(head)
        &&& head.headers@.len() == 2
        &&& head.headers@[1].0@ == "content-range"@
        &&& tells_no_range(head.headers@[1].1@, file.len as nat)
    }
}

proof fn part_is_served(info_hash: InfoHash, rh: ParsedRanges, file: FileByPathR, res: FileService)
    requires
        is_file_service(info_hash, Some(rh), Some(file), res),
    ensures
        rh_refusal(file.len, rh.ranges@) is None ==> serves_part(
            info_hash,
            file,
            first_index(rh.ranges@[0], file.len),
            last_index(rh.ranges@[0], file.len) + 1,
            res,
        ),
        rh_refusal(file.len, rh.ranges@) matches Some(RhInFileError::RangeUnsatisfiable(_))
            ==> refuses_part(file, res),
{
    match rh_refusal(file.len, rh.ranges@) {
        None => {
            let head = res->NewSlice_head;
            let first = first_index(rh.ranges@[0], file.len);
            let last = last_index(rh.ranges@[0], file.len);
            header_is_there(head, 0, "accept-ranges"@, "bytes"@);
            header_is_there(head, 2, "content-type"@, "application/octet-stream"@);
            content_range_tells_range(first as nat, last as nat, file.len);
            header_is_there(head, 1, "content-range"@, head@.headers[1].1);
        },
        Some(RhInFileError::RangeUnsatisfiable(_)) => {
            let head = res->Respond_0;
            header_is_there(head, 0, "accept-ranges"@, "bytes"@);
            content_range_tells_range(0, 0, file.len);
            header_is_there(head, 1, "content-range"@, head@.headers[1].1);
        },
        _ => {},
    }
}

proof fn single_range_refusal(range: SyntacticallyCorrectRange, file_size: u64)
    ensures
        ({
            let ranges = seq![range];
            let first = first_index(range, file_size);
            let last = last_index(range, file_size);
            &&& 0 <= first <= last ==> rh_refusal(file_size, ranges) is None
            &&& first < 0 || first > last ==> rh_refusal(file_size, ranges)
                matches Some(RhInFileError::RangeUnsatisfiable(_))
        }),
{
    let ranges = seq![range];
    let first = first_index(range, file_size);
    let last = last_index(range, file_size);
    assert(ranges[0] == range);
    if 0 <= first <= last {
        assert(unsatisfiable(ranges, file_size) is None);
    } else if first < 0 {
        assert(first_index(ranges[0], file_size) < 0);
        assert(unsatisfiable(ranges, file_size) is Some);
    } else {
        assert(first_index(ranges[0], file_size) > last_index(ranges[0], file_size));
        assert(unsatisfiable(ranges, file_size) is Some);
    }
}

/// A request for the bytes from `first` to `last` of a file is answered with these bytes,
/// as far as the file has them, and refused if the file ends before or the range is reversed.
pub proof fn range_is_served(
    info_hash: InfoHash,
    first: u64,
    last: u64,
    rh: ParsedRanges,
    file: FileByPathR,
    res: FileService,
)
    requires
        rh.ranges@ == seq![
            SyntacticallyCorrectRange {
                start: StartPosition::Index(first),
                end: EndPosition::Index(last),
            },
        ],
        is_file_service(info_hash, Some(rh), Some(file), res),
    ensures
        first <= last && first < file.len ==> serves_part(
            info_hash,
            file,
            first as int,
            if last < file.len {
                last + 1
            } else {
                file.len as int
            },
            res,
        ),
        file.len > 0 && (first > last || first >= file.len) ==> refuses_part(file, res),
        file.len == 0 && first == 0 ==> serves_part(info_hash, file, 0, 1, res),
        file.len == 0 && first > 0 ==> refuses_part(file, res),
{
    single_range_refusal(rh.ranges@[0], file.len);
    assert(rh.ranges@ =~= seq![rh.ranges@[0]]);
    part_is_served(info_hash, rh, file, res);
}

/// A request for the bytes of a file from `first` on is answered with these bytes,
/// and refused if the file ends before.
pub proof fn rest_is_served(
    info_hash: InfoHash,
    first: u64,
    rh: ParsedRanges,
    file: FileByPathR,
    res: FileService,
)
    requires
        rh.ranges@ == seq![
            SyntacticallyCorrectRange {
                start: StartPosition::Index(first),
                end: EndPosition::LastByte,
            },
        ],
        is_file_service(info_hash, Some(rh), Some(file), res),
    ensures
        first < file.len ==> serves_part(info_hash, file, first as int, file.len as int, res),
        file.len > 0 && first >= file.len ==> refuses_part(file, res),
        file.len == 0 && first == 0 ==> serves_part(info_hash, file, 0, 1, res),
        file.len == 0 && first > 0 ==> refuses_part(file, res),
{
    single_range_refusal(rh.ranges@[0], file.len);
    assert(rh.ranges@ =~= seq![rh.ranges@[0]]);
    part_is_served(info_hash, rh, file, res);
}

/// A request for the last `n` bytes of a file is answered with these bytes,
/// and refused if the file has fewer.
pub proof fn suffix_is_served(
    info_hash: InfoHash,
    n: u64,
    rh: ParsedRanges,
    file: FileByPathR,
    res: FileService,
)
    requires
        rh.ranges@ == seq![
            SyntacticallyCorrectRange {
                start: StartPosition::FromLast(n),
                end: EndPosition::LastByte,
            },
        ],
        is_file_service(info_hash, Some(rh), Some(file), res),
    ensures
        0 < n <= file.len ==> serves_part(
            info_hash,
            file,
            file.len - n,
            file.len as int,
            res,
        ),
        n > file.len ==> refuses_part(file, res),
        n == 0 && file.len > 0 ==> refuses_part(file, res),
{
    single_range_refusal(rh.ranges@[0], file.len);
    assert(rh.ranges@ =~= seq![rh.ranges@[0]]);
    part_is_served(info_hash, rh, file, res);
}

/// Several parts of a file that can be served one by one are not served together.
pub proof fn several_parts_are_not_served(
    info_hash: InfoHash,
    rh: ParsedRanges,
    file: FileByPathR,
    res: FileService,
)
    requires
        rh.ranges@.len() != 1,
        unsatisfiable(rh.ranges@, file.len) is None,
        is_file_service(info_hash, Some(rh), Some(file), res),
    ensures
        res matches FileService::Respond(head) && head.status == 500 && accepts_ranges(head)
            && head.headers@.len() == 1,
{
    header_is_there(res->Respond_0, 0, "accept-ranges"@, "bytes"@);
}

/// What is served of a file is in the file.
pub proof fn served_part_is_in_file(
    info_hash: InfoHash,
    rh: Option<ParsedRanges>,
    file: FileByPathR,
    res: FileService,
)
    requires
        file.len > 0,
        is_file_service(info_hash, rh, Some(file), res),
    ensures
        res matches FileService::NewSlice { file_id, range, .. } ==> range.start < range.end
            && range.end <= file.len && file_id.info_hash == info_hash && file_id.i == file.i,
{
    if let Some(rh) = rh {
        if rh_refusal(file.len, rh.ranges@) is None {
            assert(rh.ranges@.len() == 1);
            let range = rh.ranges@[0];
            assert(!(first_index(range, file.len) > last_index(range, file.len)));
        }
    }
}

/// A file that is found can be served: there can be a slice of the range
/// that a request for the whole file leads to, unless IDs are used up.
/// The slice stands for all bytes of the file.
pub proof fn found_file_is_served(
    d: DiskData,
    info_hash: InfoHash,
    path: Seq<Seq<char>>,
    file: FileByPathR,
    served: FileService,
    res: Result<SliceId, SliceError>,
    after: DiskData,
)
    requires
        is_file_by_path(d, info_hash@, path, Ok(file)),
        d.torrents[info_hash@].info.files is Some || d.torrents[info_hash@].info.file_length
            is Some,
        content_size(d.torrents[info_hash@].info) <= u64::MAX,
        d.next_slice_id < usize::MAX,
        is_file_service(info_hash, None, Some(file), served),
        is_new_slice(d, served->NewSlice_file_id, served->NewSlice_range, res, after),
    ensures
        served is NewSlice,
        res matches Ok(id) && after.slices.contains_key(id) && after.slices[id].info_hash
            == info_hash && after.slices[id].payload.end - after.slices[id].payload.start
            == file.len && is_file(
            d.torrents[info_hash@].info,
            file.i as int,
            after.slices[id].payload.start as nat,
            file.len as u32,
        ),
{
    let info = d.torrents[info_hash@].info;
    let i = file.i as int;
    summary_is_faithful(info);
    let start = match info.files {
        Some(files) => total_length(files.take(i)),
        None => 0,
    };
    assert(crate::disk::layout::disk_files(info)[i].path == path);
    assert(is_file(info, i, start, file.len as u32));
    range_in_file_makes_slice(
        d,
        served->NewSlice_file_id,
        start,
        file.len as u32,
        served->NewSlice_range,
        res,
        after,
    );
}

/// A part of a file that is found can be served as well.
pub proof fn part_of_found_file_is_served(
    d: DiskData,
    info_hash: InfoHash,
    path: Seq<Seq<char>>,
    rh: ParsedRanges,
    file: FileByPathR,
    served: FileService,
    res: Result<SliceId, SliceError>,
    after: DiskData,
)
    requires
        is_file_by_path(d, info_hash@, path, Ok(file)),
        d.torrents[info_hash@].info.files is Some || d.torrents[info_hash@].info.file_length
            is Some,
        content_size(d.torrents[info_hash@].info) <= u64::MAX,
        d.next_slice_id < usize::MAX,
        file.len > 0,
        is_file_service(info_hash, Some(rh), Some(file), served),
        served is NewSlice,
        is_new_slice(d, served->NewSlice_file_id, served->NewSlice_range, res, after),
    ensures
        res matches Ok(id) && after.slices.contains_key(id) && after.slices[id].info_hash
            == info_hash && after.slices[id].payload.end - after.slices[id].payload.start
            == served->NewSlice_range.end - served->NewSlice_range.start,
{
    let info = d.torrents[info_hash@].info;
    let i = file.i as int;
    summary_is_faithful(info);
    let start = match info.files {
        Some(files) => total_length(files.take(i)),
        None => 0,
    };
    assert(crate::disk::layout::disk_files(info)[i].path == path);
    assert(is_file(info, i, start, file.len as u32));
    served_part_is_in_file(info_hash, Some(rh), file, served);
    range_in_file_makes_slice(
        d,
        served->NewSlice_file_id,
        start,
        file.len as u32,
        served->NewSlice_range,
        res,
        after,
    );
}

/// A request for the URI path that is rendered for a file leads to this file.
pub proof fn rendered_path_is_served(
    info_hash: InfoHash,
    path: Seq<Seq<char>>,
    rh: Option<ParsedRanges>,
    res: Service,
)
    requires
        is_path_service(uri_path(info_hash@, path), rh, res),
    ensures
        res matches Service::FindFile { info_hash: h, path: p, rh: part } && h@ == info_hash@
            && texts(p@) == path && part == rh,
{
    rendered_path_refers(info_hash@, path);
    reference_is_unique(
        uri_path(info_hash@, path),
        info_hash@,
        res->FindFile_info_hash@,
        path,
        texts(res->FindFile_path@),
    );
}

/// A URI path that refers to a file leads to this file.
/// Others are answered with 400, and with 500 if they do not start with `/`.
pub proof fn path_is_served(uri: Seq<char>, rh: Option<ParsedRanges>, res: Service)
    requires
        is_path_service(uri, rh, res),
    ensures
        match res {
            Service::FindFile { info_hash, path, rh: part } => part == rh && refers_to(
                uri,
                info_hash@,
                texts(path@),
            ),
            Service::Respond(head) => {
                &&& accepts_ranges(head)
                &&& head.headers@.len() == 1
                &&& head.status == if uri.len() > 0 && uri[0] != '/' {
                    500u16
                } else {
                    400u16
                }
                &&& forall|h: Seq<u8>, path: Seq<Seq<char>>| !#[trigger] refers_to(uri, h, path)
            },
        },
{
    uri_path_starts_with_slash(uri);
    good_path_refers(uri);
    if let Service::Respond(head) = res {
        header_is_there(head, 0, "accept-ranges"@, "bytes"@);
    }
}

/// A Range header is read as text if all its characters are visible, and refused if not.
pub proof fn range_header_is_read(value: Seq<u8>, res: Result<ParsedRanges, ParseRhError>)
    requires
        is_parsed_rh(value, res),
    ensures
        ascii(value).len() == value.len(),
        forall|i: int| 0 <= i < value.len() ==> (#[trigger] ascii(value)[i]) == value[i] as char,
        (exists|i: int|
            0 <= i < value.len() && ((#[trigger] value[i]) < 32 && value[i] != 9 || value[i]
                >= 127)) <==> res matches Err(ParseRhError::ToStr),
        !(res matches Err(ParseRhError::ToStr)) ==> match header_ranges(ascii(value)) {
            Ok(ranges) => res matches Ok(parsed) && parsed.ranges@ == ranges,
            Err(e) => res matches Err(ParseRhError::RangeUnsatisfiable(f)) && f == e,
        },
{
}

} // verus!
