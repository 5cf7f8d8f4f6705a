use zgcmaster::census::{classify, decode, magic, Options};
use zgcmaster::Error;

#[test]
fn census_classification_separates_utf8_anomalies_from_magic_and_binary() {
    for (bytes, kind) in [
        (b"".as_slice(), "empty"),
        (b"hello world", "text"),
        (br#"{"kind":"synthetic"}"#, "json"),
        (b"[1,2]", "json"),
        (b"[not json]", "text"),
        (b"\0\0\xff\x80", "binary"),
        (b"\xff\xd8\xff\xe0", "jpeg"),
        (b"%PDF-1.7", "pdf"),
        (b"plain text ends \xe2\x82", "text-like-invalid-utf8"),
        (b"plain \xff text keeps going", "text-like-invalid-utf8"),
    ] {
        assert_eq!(classify(bytes).kind, kind, "{bytes:?}");
    }
    assert_eq!(classify(b"plain text ends \xe2\x82").utf8, "incomplete-tail");
    assert_eq!(classify(b"plain \xff text keeps going").utf8, "invalid-sequence");
    assert!(!classify(b"\xff\xd8\xff\xe0").text_like_anomaly);
    assert_eq!(classify("日本語のテキスト".as_bytes()).kind, "text");
}

#[test]
fn bands_and_leading_white_space() {
    let c = classify(b"hello world");
    assert_eq!((c.band, c.utf8, c.text_like_anomaly), ("95-100%", "valid", false));
    assert_eq!(classify(b"  \n {\"a\": 1}").kind, "json");
    assert_eq!(classify(b"{\"a\": }").kind, "text");
    // 8 of 10 characters printable: mixed
    let c = classify(b"abcdefgh\x01\x02");
    assert_eq!((c.kind, c.band), ("mixed", "80-95%"));
    let c = classify(b"abcde\x01\x02\x03\x04\x05");
    assert_eq!((c.kind, c.band), ("binary", "50-80%"));
    let c = classify(b"\x01\x02\x03a");
    assert_eq!((c.kind, c.band), ("binary", "0-50%"));
    assert!(classify(b"plain \xff text keeps going").text_like_anomaly);
}

#[test]
fn lossy_decoding_replaces_each_bad_sequence() {
    let (chars, status, printable) = decode(b"a\xffb");
    assert_eq!(chars, vec!['a', '\u{fffd}', 'b']);
    assert_eq!(status, 2);
    assert_eq!(printable, 2);
    let (chars, status, _) = decode(b"ok\xe2\x82");
    assert_eq!(chars, vec!['o', 'k', '\u{fffd}']);
    assert_eq!(status, 1);
    let (chars, status, _) = decode("é€".as_bytes());
    assert_eq!(chars, vec!['é', '€']);
    assert_eq!(status, 0);
}

#[test]
fn magic_names_census_formats() {
    assert_eq!(magic(b"\xff\xd8\xff\xe0"), Some("jpeg"));
    assert_eq!(magic(b"\x1f\x8b\x08\0\0\0\0\0\0\0"), Some("gzip"));
    assert_eq!(magic(b"%PDF-"), Some("pdf"));
    assert_eq!(magic(b"%PDF"), None);
}

#[test]
fn census_options_are_bounded() {
    assert_eq!(Options::default().validate(), Ok(()));
    assert_eq!(Options { max_bytes: 0, region_bytes: 1 << 26 }.validate(), Err(Error::CensusMaxBytes));
    assert_eq!(Options { max_bytes: (1 << 20) + 1, region_bytes: 1 << 26 }.validate(), Err(Error::CensusMaxBytes));
    assert_eq!(Options { max_bytes: 16, region_bytes: (1 << 24) - 1 }.validate(), Err(Error::RegionBytes));
    assert_eq!(Options { max_bytes: 16, region_bytes: 1 << 30 }.validate(), Ok(()));
}
