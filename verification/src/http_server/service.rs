//! How HTTP requests are answered.
use crate::disk::slice::InfoHash;
use crate::disk::{FileByPathR, FileId};
use crate::http_server::content_range::{satisfied_text, unsatisfied_text, ContentRange};
use crate::http_server::range_conv::TryFromRange;
use crate::http_server::range_header::{
    ascii, first_index, header_ranges, is_parsed_rh, last_index, parse_rh, rh_in_file, rh_refusal, RhInFileError,
};
use crate::text::texts;
use crate::uri_path::{parse_uri_path, refers_to, uri_path_error, ParseUriPathError};
use http_range_header::{ParsedRanges, RangeUnsatisfiableError};
use std::ops::{Range, RangeInclusive};
use vstd::prelude::*;
use vstd::string::*;

verus! {

/// The HTTP methods that are told apart.
#[derive(Clone, Copy, Debug, PartialEq, Eq, Structural)]
pub enum Method {
    /// GET.
    Get,
    /// HEAD.
    Head,
    /// Any other method.
    Other,
}

/// What is read of an HTTP request.
#[derive(Debug)]
pub struct Request {
    /// The method.
    pub method: Method,
    /// The scheme of the URI.
    pub scheme: Option<String>,
    /// Whether the URI has a query.
    pub has_query: bool,
    /// The path of the URI.
    pub path: String,
    /// The value of the Range header.
    pub range: Option<Vec<u8>>,
}

/// The head of an HTTP response. The version is HTTP/1.1.
#[derive(Debug, PartialEq, Eq)]
pub struct RespHead {
    /// The status code.
    pub status: u16,
    /// The headers, as names and values.
    pub headers: Vec<(String, String)>,
}

/// What a [`RespHead`] holds.
pub ghost struct RespData {
    pub status: u16,
    pub headers: Seq<(Seq<char>, Seq<char>)>,
}

/// What the headers `headers` hold.
pub open spec fn headers_data(headers: Seq<(String, String)>) -> Seq<(Seq<char>, Seq<char>)> {
    headers.map_values(|h: (String, String)| (h.0@, h.1@))
}

impl View for RespHead {
    type V = RespData;

    open spec fn view(&self) -> RespData {
        RespData { status: self.status, headers: headers_data(self.headers@) }
    }
}

/// The header that every response has: parts of the content can be asked for.
pub open spec fn accept_ranges() -> (Seq<char>, Seq<char>) {
    ("accept-ranges"@, "bytes"@)
}

/// The header of responses with content.
pub open spec fn binary_content_type() -> (Seq<char>, Seq<char>) {
    ("content-type"@, "application/octet-stream"@)
}

/// The header that tells which part of the content the response holds.
pub open spec fn content_range(text: Seq<char>) -> (Seq<char>, Seq<char>) {
    ("content-range"@, text)
}

/// The response without content with the status code `status`.
pub open spec fn empty_resp(status: u16) -> RespData {
    RespData { status, headers: seq![accept_ranges()] }
}

/// Makes the head of a response with no header but the one that every response has.
fn resp_head(status: u16) -> (res: RespHead)
    ensures
        res@ == empty_resp(status),
{
    let mut headers: Vec<(String, String)> = Vec::new();
    headers.push((String::from_str("accept-ranges"), String::from_str("bytes")));
    assert(headers_data(headers@) =~= seq![accept_ranges()]);
    RespHead { status, headers }
}

impl RespHead {
    /// Adds a header.
    fn header(&mut self, name: &str, value: String)
        ensures
            final(self)@ == (RespData {
                headers: old(self)@.headers.push((name@, value@)),
                ..old(self)@
            }),
    {
        let ghost before = self.headers@;
        let ghost text = value@;
        self.headers.push((String::from_str(name), value));
        assert(headers_data(self.headers@) =~= headers_data(before).push((name@, text)));
    }
}

/// What is to be done with a request.
#[derive(Debug)]
pub enum Service {
    /// Send this response, without content.
    Respond(RespHead),
    /// Find the file at `path` in the torrent `info_hash`, then go on with [`file_found`].
    FindFile {
        /// The torrent.
        info_hash: InfoHash,
        /// The path of the file in the torrent.
        path: Vec<String>,
        /// The part of the file that the request asks for.
        rh: Option<ParsedRanges>,
    },
}

/// The status code of the response to a request with a wrong URI path.
pub open spec fn uri_path_status(e: ParseUriPathError) -> u16 {
    match e {
        ParseUriPathError::Split => 500,
        ParseUriPathError::StartSlash => 500,
        ParseUriPathError::NoInfoHash => 400,
        ParseUriPathError::InvalidInfoHash => 400,
        ParseUriPathError::FromUtf8 => 400,
    }
}

/// Whether `res` is what is to be done with a request for `rh` of the file at `uri_path`.
pub open spec fn is_path_service(
    uri_path: Seq<char>,
    rh: Option<ParsedRanges>,
    res: Service,
) -> bool {
    match uri_path_error(uri_path) {
        Some(e) => res matches Service::Respond(head) && head@ == empty_resp(uri_path_status(e)),
        None => res matches Service::FindFile { info_hash, path, rh: part } && refers_to(
            uri_path,
            info_hash@,
            texts(path@),
        ) && part == rh,
    }
}

/// Services a request for the part `rh` of the file at `uri_path`.
pub fn service_path_range(uri_path: &str, rh: Option<ParsedRanges>) -> (res: Service)
    ensures
        is_path_service(uri_path@, rh, res),
{
    match parse_uri_path(uri_path) {
        Err(e) => match e {
            ParseUriPathError::Split => Service::Respond(resp_head(500)),
            ParseUriPathError::StartSlash => Service::Respond(resp_head(500)),
            ParseUriPathError::NoInfoHash => Service::Respond(resp_head(400)),
            ParseUriPathError::InvalidInfoHash => Service::Respond(resp_head(400)),
            ParseUriPathError::FromUtf8 => Service::Respond(resp_head(400)),
        },
        Ok((info_hash, path)) => Service::FindFile { info_hash, path, rh },
    }
}

/// The status code of the response to a request that is refused before its path is looked at.
pub open spec fn refused_status(req: Request) -> Option<u16> {
    match req.method {
        Method::Head => Some(500),
        Method::Other => Some(501),
        Method::Get => if req.scheme matches Some(scheme) && scheme@ != "http"@ {
            Some(404)
        } else if req.has_query {
            Some(404)
        } else {
            None
        },
    }
}

/// Services one HTTP request.
pub fn service(req: &Request) -> (res: Service)
    ensures
        match refused_status(*req) {
            Some(status) => res matches Service::Respond(head) && head@ == empty_resp(status),
            None => match req.range {
                None => is_path_service(req.path@, None, res),
                Some(value) => exists|parsed: Result<ParsedRanges, _>| #[trigger]
                    is_parsed_rh(value@, parsed) && match parsed {
                        Ok(rh) => is_path_service(req.path@, Some(rh), res),
                        Err(_) => res matches Service::Respond(head) && head@ == empty_resp(400),
                    },
            },
        },
        req.method == Method::Other ==> (res matches Service::Respond(head) && head.status
            == 501),
        req.method == Method::Head ==> (res matches Service::Respond(head) && head.status
            == 500),
        req.method == Method::Get && (req.has_query || (req.scheme matches Some(scheme) && scheme@
            != "http"@)) ==> (res matches Service::Respond(head) && head.status == 404),
        req.method == Method::Get && !req.has_query && (req.scheme matches Some(scheme)
            ==> scheme@ == "http"@) ==> match req.range {
            None => is_path_service(req.path@, None, res),
            Some(value) => if (exists|i: int|
                0 <= i < value@.len() && ((#[trigger] value@[i]) < 32 && value@[i] != 9 || value@[i]
                    >= 127)) || header_ranges(ascii(value@)) is Err {
                res matches Service::Respond(head) && head.status == 400
            } else {
                exists|rh: ParsedRanges| #[trigger]
                    is_path_service(req.path@, Some(rh), res) && header_ranges(ascii(value@)) == Ok::<
                        _,
                        RangeUnsatisfiableError,
                    >(rh.ranges@)
            },
        },
{
    match req.method {
        Method::Get => {
            let is_scheme_valid: bool = match &req.scheme {
                None => true,
                Some(scheme) => *scheme == String::from_str("http"),
            };
            if !is_scheme_valid {
                return Service::Respond(resp_head(404));
            }
            if req.has_query {
                return Service::Respond(resp_head(404));
            }
            let value = match &req.range {
                None => None,
                Some(value) => Some(value.as_slice()),
            };
            match parse_rh(value) {
                None => service_path_range(req.path.as_str(), None),
                Some(Err(e)) => {
                    assert(is_parsed_rh(req.range->0@, Err(e)));
                    Service::Respond(resp_head(400))
                },
                Some(Ok(rh)) => {
                    assert(is_parsed_rh(req.range->0@, Ok(rh)));
                    service_path_range(req.path.as_str(), Some(rh))
                },
            }
        },
        Method::Head => Service::Respond(resp_head(500)),
        Method::Other => Service::Respond(resp_head(501)),
    }
}

/// What is to be done with a request for a file.
#[derive(Debug)]
pub enum FileService {
    /// Send this response, without content.
    Respond(RespHead),
    /// Make a slice of the range `range` of the file `file_id`.
    /// Then send the response with the head `head` and the slice as content,
    /// or, if there is no slice, the response of [`slice_failed`].
    NewSlice {
        /// The file.
        file_id: FileId,
        /// The range in the file.
        range: Range<u64>,
        /// The head of the response.
        head: RespHead,
    },
}

/// The head of the response with the whole file as content.
pub open spec fn whole_resp() -> RespData {
    RespData { status: 200, headers: seq![accept_ranges(), binary_content_type()] }
}

/// The head of the response with a part of a file as content:
/// the bytes from `first` to `last` of `length` bytes.
pub open spec fn partial_resp(first: nat, last: nat, length: u64) -> RespData {
    RespData {
        status: 206,
        headers: seq![
            accept_ranges(),
            content_range(satisfied_text(first, last, Some(length))),
            binary_content_type(),
        ],
    }
}

/// The response to a request for a part that the file does not have.
pub open spec fn unsatisfied_resp(length: u64) -> RespData {
    RespData {
        status: 416,
        headers: seq![
            accept_ranges(),
            content_range(unsatisfied_text(length)),
        ],
    }
}

/// Whether `res` is what is to be done with a request for the part `rh` of the file `file`.
pub open spec fn is_file_service(
    info_hash: InfoHash,
    rh: Option<ParsedRanges>,
    file: Option<FileByPathR>,
    res: FileService,
) -> bool {
    match file {
        None => res matches FileService::Respond(head) && head@ == empty_resp(404),
        Some(file) => match rh {
            None => res matches FileService::NewSlice { file_id, range, head } && {
                &&& file_id == FileId { info_hash, i: file.i }
                &&& range == Range { start: 0, end: file.len }
                &&& head@ == whole_resp()
            },
            Some(rh) => match rh_refusal(file.len, rh.ranges@) {
                Some(RhInFileError::RangeUnsatisfiable(_)) =>
                    res matches FileService::Respond(head) && head@ == unsatisfied_resp(file.len),
                Some(_) => res matches FileService::Respond(head) && head@ == empty_resp(500),
                None => res matches FileService::NewSlice { file_id, range, head } && {
                    let first = first_index(rh.ranges@[0], file.len);
                    let last = last_index(rh.ranges@[0], file.len);
                    &&& file_id == FileId { info_hash, i: file.i }
                    &&& range.start == first && range.end == last + 1
                    &&& head@ == partial_resp(first as nat, last as nat, file.len)
                },
            },
        },
    }
}

/// Goes on with a request for the part `rh` of a file in the torrent `info_hash`
/// after the file was looked for.
pub fn file_found(info_hash: InfoHash, rh: Option<ParsedRanges>, file: Option<FileByPathR>) -> (res:
    FileService)
    ensures
        is_file_service(info_hash, rh, file, res),
{
    let file = match file {
        None => {
            return FileService::Respond(resp_head(404));
        },
        Some(file) => file,
    };
    let file_id = FileId { info_hash, i: file.i };
    match rh {
        None => match Range::try_from_range(..file.len) {
            Err(_) => FileService::Respond(resp_head(500)),
            Ok(range) => {
                let mut head = resp_head(200);
                head.header("content-type", String::from_str("application/octet-stream"));
                assert(head@.headers =~= whole_resp().headers);
                FileService::NewSlice { file_id, range, head }
            },
        },
        Some(rh) => match rh_in_file(file.len, &rh) {
            Err(e) => match e {
                RhInFileError::RangeNotOne => FileService::Respond(resp_head(500)),
                RhInFileError::RangeUnsatisfiable(_) => {
                    let unsatisfied = ContentRange::Unsatisfied { complete_length: file.len };
                    let mut head = resp_head(416);
                    head.header("content-range", unsatisfied.to_string());
                    assert(head@.headers =~= unsatisfied_resp(file.len).headers);
                    FileService::Respond(head)
                },
                RhInFileError::RangeConvert(_) => FileService::Respond(resp_head(500)),
            },
            Ok(range) => {
                let part: Result<RangeInclusive<u64>, _> = RangeInclusive::try_from_range(
                    range.start..range.end,
                );
                match part {
                    Err(_) => FileService::Respond(resp_head(500)),
                    Ok(part) => {
                        let ghost shown = part@;
                        let satisfied = ContentRange::Satisfied {
                            range: part,
                            complete_length: Some(file.len),
                        };
                        let mut head = resp_head(206);
                        head.header("content-range", satisfied.to_string());
                        head.header("content-type", String::from_str("application/octet-stream"));
                        assert(head@.headers =~= partial_resp(
                            shown.start as nat,
                            shown.end as nat,
                            file.len,
                        ).headers);
                        FileService::NewSlice { file_id, range, head }
                    },
                }
            },
        },
    }
}

/// The response if the slice to be sent as content could not be made.
pub fn slice_failed() -> (res: RespHead)
    ensures
        res@ == empty_resp(500),
        res.status == 500,
{
    resp_head(500)
}

} // verus!
