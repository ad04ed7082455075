use vincenzo::error::Error;
use vincenzo::magnet::{parse_addresses, select_x_pe, test_length_fits};

type Magnet = vincenzo::magnet::Magnet<(String, u16)>;

/// A host and a port.
fn address(text: &String) -> Option<(String, u16)> {
    let (host, port) = text.rsplit_once(':')?;
    Some((host.to_string(), port.parse().ok()?))
}

const LINK: &str = "magnet:?xt=urn:btih:9999999999999999999999999999999999999999&amp;dn=bla&amp;tr=udp%3A%2F%2Ftracker.coppersurfer.tk%3A6969%2Fannounce&amp;tr=udp%3A%2F%2Ftracker.openbittorrent.com%3A6969%2Fannounce";

#[test]
fn fields() {
    let m = Magnet::new("magnet:?xt=urn:btih:08ada5a7a6183aae1e09d831df6748d566095a10&dn=Sin%20tel&xl=12345&tr=udp%3A%2F%2Fexplodie.org%3A6969&tr=wss%3A%2F%2Ftracker.btorrent.xyz&tr=udp%3A%2F%2Ft.org%3A1%2Fannounce&x.pe=1.2.3.4%3A5&x.pe=%5B::1%5D:6&y=7", address).unwrap();
    assert_eq!(m.parse_dn(), "Sin tel");
    assert_eq!(m.inner.xl, Some(12345));
    assert_eq!(m.inner.hash_type, Some("btih".to_string()));
    assert!(m.has_info_hash());
    assert_eq!(
        m.parse_xt(),
        [0x08, 0xad, 0xa5, 0xa7, 0xa6, 0x18, 0x3a, 0xae, 0x1e, 0x09,
         0xd8, 0x31, 0xdf, 0x67, 0x48, 0xd5, 0x66, 0x09, 0x5a, 0x10],
    );
    assert!(m.trackers_decode());
    assert_eq!(m.parse_trackers(), vec!["explodie.org:6969".to_string(), "t.org:1".to_string()]);
    assert_eq!(m.parse_x_pe(), &vec![("1.2.3.4".to_string(), 5), ("[::1]".to_string(), 6)]);
}

#[test]
fn escaped_ampersands() {
    let m = Magnet::new(LINK, address).unwrap();
    assert_eq!(m.parse_xt(), [0x99; 20]);
    assert_eq!(m.parse_x_pe(), &vec![]);
}

#[test]
fn names() {
    let m = Magnet::new("magnet:?xt=urn:btih:9999999999999999999999999999999999999999", address).unwrap();
    assert_eq!(m.parse_dn(), "Unknown");
    let m = Magnet::new("magnet:?dn=%ff", address).unwrap();
    assert_eq!(m.parse_dn(), "Unknown");
    assert!(!m.has_info_hash());
}

#[test]
fn trackers() {
    let mut m = Magnet::new("magnet:?dn=a", address).unwrap();
    m.inner.tr = vec![
        "udp://a.b:1/announce/x".to_string(),
        "http://c.d:2".to_string(),
        "udpudp://://e.f:3".to_string(),
        "udp%3A%2F%2Fg.h%3A4".to_string(),
    ];
    assert_eq!(
        m.parse_trackers(),
        vec!["a.b:1".to_string(), "udp:".to_string(), "g.h:4".to_string()],
    );
    m.inner.tr = vec!["udp%ff".to_string()];
    assert!(!m.trackers_decode());
}

#[test]
fn invalid_links() {
    for link in ["https://example.com", "", "magnet:", "magnet:?a b", "magnet:?dn=%zz", "magnet:?a#b#c", "magnet:?\u{e9}"] {
        assert_eq!(Magnet::new(link, address).unwrap_err(), Error::MagnetLinkInvalid);
    }
    assert!(Magnet::new("magnet:?a#b", address).is_ok());
}

#[test]
fn exact_lengths() {
    assert!(test_length_fits("magnet:?xl=5"));
    assert!(test_length_fits("magnet:?dn=a"));
    assert!(test_length_fits("magnet:?xl=18446744073709551615&a=b"));
    assert!(!test_length_fits("magnet:?xl=18446744073709551616"));
    assert!(!test_length_fits("magnet:?xl=&xl=5"));
    // Only the first entry is read.
    assert!(test_length_fits("magnet:?xl=5&xl="));
    // This is no entry.
    assert!(test_length_fits("magnet:?xl=a"));
    assert_eq!(Magnet::new("magnet:?xl=a", address).unwrap().inner.xl, None);
    assert_eq!(Magnet::new("magnet:?xl=5&xl=", address).unwrap().inner.xl, Some(5));
}

#[test]
fn peer_addresses() {
    let pair = |a: &str, b: &str| (a.to_string(), b.to_string());
    let pairs = vec![pair("x.pe", "a"), pair("y", "b"), pair("x.pe", "c")];
    assert_eq!(select_x_pe(&pairs), vec!["a".to_string(), "c".to_string()]);
}

#[test]
fn wrong_peer_addresses() {
    for link in ["magnet:?x.pe=1.2.3.4%3A5&x.pe=a", "magnet:?x.pe=", "magnet:?x.pe=a:70000"] {
        assert_eq!(Magnet::new(link, address).unwrap_err(), Error::MagnetLinkInvalid);
    }
    // Only `x.pe` entries are peer addresses.
    assert!(Magnet::new("magnet:?pe=a", address).is_ok());
    let list = vec!["a:1".to_string(), "b:2".to_string()];
    assert_eq!(
        parse_addresses(&list, &address),
        Some(vec![("a".to_string(), 1), ("b".to_string(), 2)]),
    );
    assert_eq!(parse_addresses(&vec!["a:1".to_string(), "b".to_string()], &address), None);
}
