use zgcmaster::jstring::java_hash;
use zgcmaster::references::ReferenceModel;

#[test]
fn hash_and_translation_are_explicit_hypotheses() {
    assert_eq!(java_hash(b"abc", 0), 96354);
    assert_eq!(java_hash(&[b'a', 0, b'b', 0, b'c', 0], 1), 96354);
    assert_eq!(ReferenceModel::NonGenLow42.target((1 << 42) | 128), Some(128));
    assert_eq!(ReferenceModel::NonGenLow42.target(128), None);
    assert_eq!(ReferenceModel::NonGenLow42.target((3 << 42) | 128), None);
}

#[test]
fn java_hash_wraps_like_java() {
    assert_eq!(java_hash(b"", 0), 0);
    assert_eq!(java_hash(b"a", 0), 97);
    // "polygenelubricants".hashCode() == Integer.MIN_VALUE
    assert_eq!(java_hash(b"polygenelubricants", 0), 0x8000_0000);
    // A UTF-16 code unit above 0xff
    assert_eq!(java_hash(&[0xac, 0x20], 1), 0x20ac);
}
