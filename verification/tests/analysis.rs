use zgcmaster::analysis::{detection, sniff, Suggestion};

#[test]
fn magic_is_not_enough_for_jks_or_pem() {
    assert_eq!(sniff(b"\xfe\xed\xfe\xedgarbage"), None);
    assert_eq!(sniff(b"-----BEGIN CERTIFICATE-----"), None);
    assert_eq!(sniff(b"\x1f\x8b\x08\0\0\0\0\0\0\0"), Some("gz"));
    assert_eq!(sniff(b"xx\x1f\x8b\x08\0\0\0\0\0\0\0"), None);
}

#[test]
fn sniff_needs_enough_bytes_and_valid_marker_bytes() {
    assert_eq!(sniff(b"\xff\xd8\xff\xe0"), Some("jpg"));
    assert_eq!(sniff(b"\xff\xd8\xff\x10"), None);
    assert_eq!(sniff(b"\xff\xd8\xff"), None);
    assert_eq!(sniff(b"\x1f\x8b\x08\xff\0\0\0\0\0\0"), None);
    assert_eq!(sniff(b"\x1f\x8b\x08\0\0\0\0\0\0"), None);
    assert_eq!(sniff(b"GIF89a\0\0\0\0"), Some("gif"));
    assert_eq!(sniff(b"GIF87a\0\0\0\0"), Some("gif"));
    assert_eq!(sniff(b"GIF89a"), None);
    let mut png = b"\x89PNG\r\n\x1a\n\0\0\0\rIHDR".to_vec();
    png.resize(24, 0);
    assert_eq!(sniff(&png), Some("png"));
    png.truncate(23);
    assert_eq!(sniff(&png), None);
    let mut zip = b"PK\x03\x04".to_vec();
    zip.resize(30, 0);
    assert_eq!(sniff(&zip), Some("zip"));
    zip.truncate(29);
    assert_eq!(sniff(&zip), None);
}

#[test]
fn votes_need_thirty_two_and_an_eighty_percent_share() {
    let d = detection(0, 31);
    assert_eq!(d.suggestion, Suggestion::Inconclusive);
    let d = detection(0, 32);
    assert_eq!(d.suggestion, Suggestion::CompressedKlass);
    assert_eq!((d.share_numerator, d.share_denominator), (32, 32));
    let d = detection(40, 10);
    assert_eq!(d.suggestion, Suggestion::UncompressedKlass);
    let d = detection(39, 11);
    assert_eq!(d.suggestion, Suggestion::Inconclusive);
    let d = detection(20, 20);
    assert_eq!(d.suggestion, Suggestion::Inconclusive);
    assert_eq!(Suggestion::CompressedKlass.name(), "compressed-klass");
}
