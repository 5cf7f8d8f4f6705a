use zgcmaster::checksums::{checksums, sum_for};
use zgcmaster::digest::{sha256_hex, verify_digest, Hasher};
use zgcmaster::number::number;
use zgcmaster::Error;

fn line(h: &str, name: &str) -> String {
    format!("{h}  {name}\n")
}

#[test]
fn checksum_files_need_every_bundle_file_once() {
    let a = "a".repeat(64);
    let b = "B".repeat(64);
    let text = line(&a, "heap.raw") + &line(&b, "layout.json") + &line(&a, "maps.txt") + &line(&a, "consistency.txt");
    let sums = checksums(text.as_bytes()).unwrap();
    assert_eq!(sums.len(), 4);
    assert_eq!(sum_for(&sums, "layout.json").unwrap(), &"b".repeat(64));
    assert_eq!(sum_for(&sums, "expected.json"), None);
    let missing = line(&a, "heap.raw") + &line(&a, "layout.json") + &line(&a, "maps.txt");
    assert_eq!(checksums(missing.as_bytes()), Err(Error::MissingChecksum("consistency.txt".into())));
    let repeated = text.clone() + &line(&a, "heap.raw");
    assert_eq!(checksums(repeated.as_bytes()), Err(Error::InvalidChecksumEntry));
    assert_eq!(checksums(format!("{a}\n").as_bytes()), Err(Error::MissingChecksumFilename));
    assert_eq!(checksums(b"\n"), Err(Error::MissingDigest));
    assert_eq!(checksums(line("abc", "heap.raw").as_bytes()), Err(Error::InvalidChecksumEntry));
    assert_eq!(checksums(line(&a, "other.bin").as_bytes()), Err(Error::InvalidChecksumEntry));
    assert_eq!(checksums(b"\xff"), Err(Error::BadChecksumFile));
}

#[test]
fn digests_are_lower_case_sha256_hex() {
    assert_eq!(sha256_hex(b"abc"), "ba7816bf8f01cfea414140de5dae2223b00361a396177a9cb410ff61f20015ad");
    assert_eq!(sha256_hex(b""), "e3b0c44298fc1c149afbf4c8996fb92427ae41e4649b934ca495991b7852b855");
    assert_eq!(verify_digest("ab", "ab", "heap.raw"), Ok(()));
    assert_eq!(verify_digest("ab", "ac", "heap.raw"), Err(Error::ChecksumMismatch("heap.raw".into())));
}

#[test]
fn numbers_are_decimal_or_hex() {
    assert_eq!(number("4096"), Ok(4096));
    assert_eq!(number("0x1000"), Ok(4096));
    assert_eq!(number("0xFFFFFFFFFFFFFFFF"), Ok(u64::MAX));
    assert!(number("0x1_0000_0000_0000_0000").is_err());
    assert!(number("18446744073709551616").is_err());
    assert!(number("").is_err());
    assert!(number("0x").is_err());
    assert!(number("-1").is_err());
}

#[test]
fn numbers_read_back_in_decimal_and_hex() {
    for n in [0u64, 1, 9, 10, 15, 16, 255, 4096, 123456789, u64::MAX - 1, u64::MAX] {
        assert_eq!(number(&n.to_string()), Ok(n));
        assert_eq!(number(&format!("0x{:x}", n)), Ok(n));
    }
    for bad in ["-1", "0x", "0xg", "18446744073709551616", ""] {
        assert!(number(bad).is_err());
    }
}

#[test]
fn incremental_hashing_matches_the_whole_digest() {
    let data = b"the quick brown fox jumps over the lazy dog";
    let mut h = Hasher::new();
    for chunk in data.chunks(7) {
        h.absorb(chunk);
    }
    assert_eq!(h.hex(), sha256_hex(data));
    assert_eq!(Hasher::new().hex(), "e3b0c44298fc1c149afbf4c8996fb92427ae41e4649b934ca495991b7852b855");
}
