use vincenzo::http_server::content_range::ContentRange;

#[test]
fn a0() {
    assert_eq!(
        ContentRange::Unsatisfied { complete_length: 8391 }.to_string(),
        "bytes */8391",
    );
}

#[test]
fn a1() {
    assert_eq!(
        ContentRange::Satisfied {
            range: 0 ..= 9,
            complete_length: Some(20),
        }.to_string(),
        "bytes 0-9/20",
    );
}

#[test]
fn a2() {
    assert_eq!(
        ContentRange::Satisfied {
            range: 0 ..= 9,
            complete_length: None,
        }.to_string(),
        "bytes 0-9/*",
    );
}

#[test]
fn largest_numbers() {
    assert_eq!(
        ContentRange::Satisfied {
            range: 1234567890 ..= u64::MAX,
            complete_length: Some(100),
        }.to_string(),
        "bytes 1234567890-18446744073709551615/100",
    );
}
