use http_range_header::RangeUnsatisfiableError;
use vincenzo::disk::FileByPathR;
use vincenzo::http_server::content_body::{BodyStep, ContentBody};
use vincenzo::http_server::range_header::{parse_rh, rh_in_file, ParseRhError, RhInFileError};
use vincenzo::http_server::service::{
    file_found, service, service_path_range, slice_failed, FileService, Method, Request, RespHead, Service,
};

const URI: &str = "/AAAAAAAAAAAAAAAAAAAAAAAAAAA=/a/b.txt";

fn request(path: &str) -> Request {
    Request {
        method: Method::Get,
        scheme: None,
        has_query: false,
        path: path.to_string(),
        range: None,
    }
}

fn head(status: u16, headers: &[(&str, &str)]) -> RespHead {
    RespHead {
        status,
        headers: headers.iter().map(|(a, b)| (a.to_string(), b.to_string())).collect(),
    }
}

fn refused(req: &Request) -> u16 {
    match service(req) {
        Service::Respond(h) => {
            assert_eq!(h, head(h.status, &[("accept-ranges", "bytes")]));
            h.status
        },
        Service::FindFile { .. } => panic!("the request is not refused"),
    }
}

#[test]
fn methods() {
    let mut req = request(URI);
    req.method = Method::Head;
    assert_eq!(refused(&req), 500);
    req.method = Method::Other;
    assert_eq!(refused(&req), 501);
}

#[test]
fn schemes_and_queries() {
    let mut req = request(URI);
    req.scheme = Some("https".to_string());
    assert_eq!(refused(&req), 404);
    req.scheme = Some("http".to_string());
    req.has_query = true;
    assert_eq!(refused(&req), 404);
    req.has_query = false;
    assert!(matches!(service(&req), Service::FindFile { .. }));
}

#[test]
fn wrong_paths() {
    assert_eq!(refused(&request("a")), 500);
    assert_eq!(refused(&request("")), 400);
    assert_eq!(refused(&request("/a")), 400);
    assert_eq!(refused(&request("/AAAAAAAAAAAAAAAAAAAAAAAAAAA=/%ff")), 400);
}

#[test]
fn wrong_range_headers() {
    let mut req = request(URI);
    req.range = Some(b"bytes".to_vec());
    assert_eq!(refused(&req), 400);
    req.range = Some(vec![0x80]);
    assert_eq!(refused(&req), 400);
    // The range header is looked at first.
    req.path = "a".to_string();
    assert_eq!(refused(&req), 400);
}

#[test]
fn files_are_looked_for() {
    let mut req = request(URI);
    match service(&req) {
        Service::FindFile { info_hash, path, rh } => {
            assert_eq!(info_hash, [0; 20]);
            assert_eq!(path, vec!["a".to_string(), "b.txt".to_string()]);
            assert!(rh.is_none());
        },
        Service::Respond(h) => panic!("refused: {:?}", h),
    }
    req.range = Some(b"bytes=2-5".to_vec());
    match service(&req) {
        Service::FindFile { rh, .. } => {
            assert_eq!(rh.unwrap().validate(10).unwrap(), vec![2..=5]);
        },
        Service::Respond(h) => panic!("refused: {:?}", h),
    }
    assert!(matches!(service_path_range(URI, None), Service::FindFile { .. }));
}

fn file() -> Option<FileByPathR> {
    Some(FileByPathR { i: 3, len: 100 })
}

fn rh(value: &str) -> Option<http_range_header::ParsedRanges> {
    Some(http_range_header::parse_range_header(value).unwrap())
}

#[test]
fn missing_files() {
    match file_found([9; 20], None, None) {
        FileService::Respond(h) => assert_eq!(h, head(404, &[("accept-ranges", "bytes")])),
        FileService::NewSlice { .. } => unreachable!(),
    }
}

#[test]
fn whole_files() {
    match file_found([9; 20], None, file()) {
        FileService::NewSlice { file_id, range, head: h } => {
            assert_eq!((file_id.info_hash, file_id.i), ([9; 20], 3));
            assert_eq!(range, 0..100);
            assert_eq!(
                h,
                head(200, &[("accept-ranges", "bytes"), ("content-type", "application/octet-stream")]),
            );
        },
        FileService::Respond(h) => panic!("refused: {:?}", h),
    }
}

#[test]
fn parts_of_files() {
    match file_found([9; 20], rh("bytes=10-19"), file()) {
        FileService::NewSlice { file_id, range, head: h } => {
            assert_eq!((file_id.info_hash, file_id.i), ([9; 20], 3));
            assert_eq!(range, 10..20);
            assert_eq!(
                h,
                head(206, &[
                    ("accept-ranges", "bytes"),
                    ("content-range", "bytes 10-19/100"),
                    ("content-type", "application/octet-stream"),
                ]),
            );
        },
        FileService::Respond(h) => panic!("refused: {:?}", h),
    }
    match file_found([9; 20], rh("bytes=-5"), file()) {
        FileService::NewSlice { range, .. } => assert_eq!(range, 95..100),
        FileService::Respond(h) => panic!("refused: {:?}", h),
    }
}

#[test]
fn parts_that_files_do_not_have() {
    match file_found([9; 20], rh("bytes=100-"), file()) {
        FileService::Respond(h) => assert_eq!(
            h,
            head(416, &[("accept-ranges", "bytes"), ("content-range", "bytes */100")]),
        ),
        FileService::NewSlice { .. } => unreachable!(),
    }
    match file_found([9; 20], rh("bytes=1-2,5-6"), file()) {
        FileService::Respond(h) => assert_eq!(h, head(500, &[("accept-ranges", "bytes")])),
        FileService::NewSlice { .. } => unreachable!(),
    }
    assert_eq!(slice_failed(), head(500, &[("accept-ranges", "bytes")]));
}

#[test]
fn range_headers() {
    assert!(parse_rh(None).is_none());
    assert!(matches!(parse_rh(Some(&[7])), Some(Err(ParseRhError::ToStr))));
    assert!(matches!(
        parse_rh(Some(b"bytes=-0")),
        Some(Err(ParseRhError::RangeUnsatisfiable(RangeUnsatisfiableError::ZeroSuffix))),
    ));
    assert_eq!(parse_rh(Some(b"bytes=0-9, 20-")).unwrap().unwrap().ranges.len(), 2);
}

#[test]
fn range_headers_in_files() {
    let error = |value: &str, size: u64| rh_in_file(size, &rh(value).unwrap()).unwrap_err();
    assert_eq!(rh_in_file(10, &rh("bytes=2-5").unwrap()).unwrap(), 2..6);
    assert_eq!(rh_in_file(10, &rh("bytes=2-500").unwrap()).unwrap(), 2..10);
    assert_eq!(rh_in_file(10, &rh("bytes=2-").unwrap()).unwrap(), 2..10);
    assert_eq!(rh_in_file(u64::MAX, &rh("bytes=2-").unwrap()).unwrap(), 2..u64::MAX);
    // An empty file.
    assert_eq!(rh_in_file(0, &rh("bytes=0-").unwrap()).unwrap(), 0..1);
    assert!(matches!(error("bytes=1-2,4-5", 10), RhInFileError::RangeNotOne));
    assert!(matches!(
        error("bytes=1-4,4-5", 10),
        RhInFileError::RangeUnsatisfiable(RangeUnsatisfiableError::OverlappingRanges),
    ));
    assert!(matches!(
        error("bytes=10-", 10),
        RhInFileError::RangeUnsatisfiable(RangeUnsatisfiableError::RangeReversed),
    ));
    assert!(matches!(
        error("bytes=-11", 10),
        RhInFileError::RangeUnsatisfiable(RangeUnsatisfiableError::FileSuffixOutOfBounds),
    ));
}

#[test]
fn content_is_sent() {
    let mut body = ContentBody::new(10..15);
    assert_eq!(body.size_hint(), 5);
    assert_eq!(body.poll_frame(), BodyStep::StartRead);
    assert_eq!(body.poll_frame(), BodyStep::ContinueRead);
    assert_eq!(body.handle_resp(vec![1, 2, 3]), vec![1, 2, 3]);
    assert_eq!(body.size_hint(), 2);
    assert_eq!(body.poll_frame(), BodyStep::StartRead);
    body.handle_error();
    assert_eq!(body.poll_frame(), BodyStep::StartRead);
    // No more is sent than was announced.
    assert_eq!(body.handle_resp(vec![4, 5, 6]), vec![4, 5]);
    assert_eq!(body.size_hint(), 0);
    assert_eq!(body.poll_frame(), BodyStep::End);
    assert_eq!(ContentBody::new(15..10).size_hint(), 0);
}
