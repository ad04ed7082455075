use vincenzo::uri_path::{decode_info_hash, parse_uri_path, render_uri_path_unchecked, ParseUriPathError};

fn texts(v: &[&str]) -> Vec<String> {
    v.iter().map(|s| s.to_string()).collect()
}

#[test]
fn rendering() {
    let path = texts(&["a b", "c/d", "é-._~"]);
    assert_eq!(
        render_uri_path_unchecked(&[255; 20], &path),
        "/__________________________8=/a%20b/c%2Fd/%C3%A9-._~",
    );
    assert_eq!(render_uri_path_unchecked(&[0; 20], &vec![]), "/AAAAAAAAAAAAAAAAAAAAAAAAAAA=");
}

#[test]
fn rendered_paths_are_parsed() {
    for hash in [[0; 20], [255; 20], [0xfb; 20], [77; 20]] {
        for path in [texts(&[]), texts(&["x"]), texts(&["", "100%", "ü/ß", "%41"]), texts(&["a", "b", "c"])] {
            assert_eq!(parse_uri_path(&render_uri_path_unchecked(&hash, &path)), Ok((hash, path)));
        }
    }
}

#[test]
fn parsing() {
    assert_eq!(
        parse_uri_path("/AAAAAAAAAAAAAAAAAAAAAAAAAAA=/a%2fb/c%zz%"),
        Ok(([0; 20], texts(&["a/b", "c%zz%"]))),
    );
    assert_eq!(parse_uri_path("/AAAAAAAAAAAAAAAAAAAAAAAAAAA="), Ok(([0; 20], texts(&[]))));
    assert_eq!(parse_uri_path("/AAAAAAAAAAAAAAAAAAAAAAAAAAA=/"), Ok(([0; 20], texts(&[""]))));
}

#[test]
fn parsing_errors() {
    assert_eq!(parse_uri_path("a/b"), Err(ParseUriPathError::StartSlash));
    assert_eq!(parse_uri_path(""), Err(ParseUriPathError::NoInfoHash));
    assert_eq!(parse_uri_path("/"), Err(ParseUriPathError::InvalidInfoHash));
    assert_eq!(parse_uri_path("/xyz/a"), Err(ParseUriPathError::InvalidInfoHash));
    assert_eq!(
        parse_uri_path("/AAAAAAAAAAAAAAAAAAAAAAAAAAA=/%ff"),
        Err(ParseUriPathError::FromUtf8),
    );
}

#[test]
fn info_hashes() {
    assert_eq!(decode_info_hash("AAAAAAAAAAAAAAAAAAAAAAAAAAA="), Ok([0; 20]));
    // 21 bytes.
    assert_eq!(decode_info_hash("AAAAAAAAAAAAAAAAAAAAAAAAAAAA"), Err(()));
    // 18 bytes.
    assert_eq!(decode_info_hash("AAAAAAAAAAAAAAAAAAAAAAAA"), Err(()));
    // Trailing bits.
    assert_eq!(decode_info_hash("AAAAAAAAAAAAAAAAAAAAAAAAAAB="), Err(()));
    // Another alphabet.
    assert_eq!(decode_info_hash("AAAAAAAAAAAAAAAAAAAAAAAAA+A="), Err(()));
}
