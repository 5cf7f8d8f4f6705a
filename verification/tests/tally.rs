use zgcmaster::counts::Counts;
use zgcmaster::census::Options;
use zgcmaster::tally::{census_read, CensusRead, Tally};

fn region(t: &Tally, start: u64) -> &Counts {
    &t.regions.iter().find(|r| r.0 == start).unwrap().1
}

#[test]
fn whole_payloads_count_by_format_band_and_status() {
    let mut t = Tally::new();
    t.record_payload(128, 11, 1 << 24, b"hello world");
    t.record_payload(256, 4, 1 << 24, b"\xff\xd8\xff\xe0");
    t.record_payload(384, 18, 1 << 24, b"plain text ends \xe2\x82");
    assert_eq!((t.arrays, t.payload_bytes, t.classified, t.full_payloads, t.anomalies), (3, 33, 3, 3, 1));
    assert_eq!(t.formats.lookup("text"), (1, 11));
    assert_eq!(t.formats.lookup("jpeg"), (1, 4));
    assert_eq!(t.formats.lookup("text-like-invalid-utf8"), (1, 18));
    assert_eq!(t.encodings.lookup("valid"), (1, 0));
    assert_eq!(t.encodings.lookup("invalid-sequence"), (1, 0));
    assert_eq!(t.encodings.lookup("incomplete-tail"), (1, 0));
    assert_eq!(t.bands.lookup("95-100%").0 + t.bands.lookup("80-95%").0 + t.bands.lookup("0-50%").0, 3);
    let r = region(&t, 0);
    assert_eq!(r.lookup("arrays"), (3, 33));
    assert_eq!(r.lookup("classified"), (3, 0));
    assert_eq!(r.lookup("text_like_utf8_anomalies"), (1, 0));
    assert_eq!(r.lookup("incomplete-tail"), (1, 0));
    assert_eq!(t.prefix_magic.len(), 0);
}

#[test]
fn over_limit_arrays_get_only_a_prefix_hint() {
    let mut t = Tally::new();
    let region_bytes = 1 << 24;
    t.record_over_limit(region_bytes + 128, 100_000, region_bytes, b"\xff\xd8\xff\xe0 synthetic oversized magic");
    t.record_over_limit(region_bytes + 256, 2048, region_bytes, b"this synthetic payload exceeds t");
    assert_eq!((t.arrays, t.payload_bytes, t.classified, t.full_payloads), (2, 102_048, 1, 0));
    assert_eq!(t.formats.lookup("jpeg"), (1, 100_000));
    assert_eq!(t.formats.lookup("unclassified-over-limit"), (1, 2048));
    assert_eq!(t.prefix_magic.lookup("jpeg"), (1, 100_000));
    assert_eq!(t.encodings.len(), 0);
    assert_eq!(t.regions.len(), 1);
    let r = region(&t, region_bytes);
    assert_eq!(r.lookup("arrays"), (2, 102_048));
    assert_eq!(r.lookup("over_limit"), (2, 0));
    assert_eq!(r.lookup("prefix_only_magic"), (1, 0));
    assert_eq!(r.lookup("classified"), (1, 0));
}

#[test]
fn regions_are_kept_in_offset_order() {
    let mut t = Tally::new();
    let rb = 1 << 24;
    t.record_payload(3 * rb + 8, 1, rb, b"a");
    t.record_payload(8, 1, rb, b"b");
    t.record_payload(rb, 1, rb, b"c");
    t.record_payload(3 * rb, 1, rb, b"d");
    let starts: Vec<u64> = t.regions.iter().map(|r| r.0).collect();
    assert_eq!(starts, vec![0, rb, 3 * rb]);
    assert_eq!(region(&t, 3 * rb).lookup("arrays"), (2, 2));
}

fn byte_total(c: &Counts) -> u64 {
    (0..c.len()).map(|i| c.entry(i).2).sum()
}

#[test]
fn every_array_lands_in_exactly_one_format() {
    let mut t = Tally::new();
    let rb = 1 << 24;
    t.record_payload(0, 0, rb, b"");
    t.record_payload(64, 5, rb, b"\x00\x01\x02\x03\x04");
    t.record_payload(128, 11, rb, b"hello world");
    t.record_payload(192, 11, rb, b"hello again");
    t.record_over_limit(256, 5_000_000, rb, b"%PDF-1.7 synthetic oversized pdf");
    t.record_over_limit(320, 4_000_000, rb, b"no hint in these first bytes....");
    assert_eq!(t.arrays, 6);
    assert_eq!(t.formats.checked_total(), Some(6));
    assert_eq!(byte_total(&t.formats), t.payload_bytes);
    assert_eq!(t.payload_bytes, 9_000_027);
    assert_eq!(t.bands.checked_total(), Some(t.full_payloads));
    assert_eq!(t.encodings.checked_total(), Some(4));
    assert_eq!(t.prefix_magic.checked_total().unwrap() + t.full_payloads, t.classified);
    assert_eq!(t.classified, 5);
}

#[test]
fn over_the_bound_only_a_prefix_is_read() {
    let options = Options { max_bytes: 16, region_bytes: 1 << 24 };
    assert_eq!(census_read(16, &options), CensusRead::Whole(16));
    assert_eq!(census_read(17, &options), CensusRead::Prefix(17));
    assert_eq!(census_read(1000, &options), CensusRead::Prefix(32));
    assert_eq!(census_read(0, &options), CensusRead::Whole(0));
    let mut t = Tally::new();
    t.record(0, 11, &options, b"hello world");
    t.record(64, 1000, &options, b"%PDF-1.7 synthetic oversized pdf");
    assert_eq!((t.arrays, t.full_payloads, t.classified, t.payload_bytes), (2, 1, 2, 1011));
    assert_eq!(t.formats.lookup("text"), (1, 11));
    assert_eq!(t.formats.lookup("pdf"), (1, 1000));
    assert_eq!(t.prefix_magic.lookup("pdf"), (1, 1000));
}
