use zgcmaster::compare::string_bindings;
use zgcmaster::corpus::signed_delta;
use zgcmaster::dictionaries::DictionaryTally;
use zgcmaster::discovery::{outcome, Effort};
use zgcmaster::layout::{Class, Layout, Object, PROFILE};
use zgcmaster::patterns::{Pack, PatternTally};
use zgcmaster::reader::array_preview;
use zgcmaster::Error;

fn class(name: &str, klass: &str, kind: &str, scale: u64) -> Class {
    Class {
        name: name.into(),
        klass: klass.into(),
        kind: kind.into(),
        size: 24,
        fields: vec![],
        element: "byte".into(),
        base: 16,
        scale,
        length_offset: 12,
    }
}

#[test]
fn discovery_effort_and_verdicts() {
    let mut e = Effort::new(true);
    e.consider(3, false);
    e.read(1);
    e.read(3);
    e.check();
    e.confirm();
    assert_eq!((e.groups_considered, e.groups_truncated, e.reads, e.checked, e.hash_matches), (3, true, 4, 1, 1));
    let mut f = Effort::new(false);
    f.consider(2, true);
    f.read(u64::MAX);
    f.read(5);
    assert_eq!((f.groups_truncated, f.reads), (true, u64::MAX));
    assert_eq!(outcome(0, 16), ("no-supported-proposal", false));
    assert_eq!(outcome(17, 16), ("review-required", true));
    assert_eq!(outcome(16, 16), ("review-required", false));
}

#[test]
fn dictionary_tally_counts_reasons_and_node_classes() {
    let mut t = DictionaryTally::new();
    t.count("value-not-string");
    t.emit(0x2000);
    t.emit(0x2000);
    t.emit(0x3000);
    assert_eq!((t.settled(), t.emitted_count()), (4, 3));
    assert_eq!(t.counts().lookup("emitted"), (3, 0));
    assert_eq!(t.counts().lookup("value-not-string"), (1, 0));
    assert_eq!(t.by_klass().lookup("0x2000"), (2, 0));
    assert_eq!(t.by_klass().lookup("0x3000"), (1, 0));
}

#[test]
fn string_bindings_take_the_last_class_of_each_name() {
    let l = Layout {
        version: 1,
        profile: PROFILE.into(),
        java: "21".into(),
        architecture: "amd64".into(),
        classes: vec![
            class("java.lang.String", "0x10", "instance", 0),
            class("[I", "0x20", "array", 4),
            class("[B", "0x30", "array", 1),
        ],
    };
    let b = string_bindings(&l);
    assert_eq!(b.len(), 2);
    assert_eq!(b.get("[B").map(|s| s.as_str()), Some("0x30"));
    assert_eq!(b.get("java.lang.String").map(|s| s.as_str()), Some("0x10"));
    assert_eq!(b.get("[I"), None);
    let empty = Layout { classes: vec![class("[I", "0x20", "array", 4)], ..l };
    assert_eq!(string_bindings(&empty).len(), 0);
}

#[test]
fn signed_deltas_fit_or_refuse() {
    assert_eq!(signed_delta(5, 3), Some(-2));
    assert_eq!(signed_delta(3, 5), Some(2));
    assert_eq!(signed_delta(7, 7), Some(0));
    assert_eq!(signed_delta(0, u64::MAX), None);
}

#[test]
fn array_previews_cover_the_first_elements() {
    let c = class("[I", "0x20", "array", 4);
    let o = Object { offset: 1000, size: 424, class_id: 0, length: Some(100) };
    let p = array_preview(&o, &c).unwrap();
    assert_eq!(p.element_offsets.len(), 64);
    assert_eq!(p.element_offsets[0], 1016);
    assert_eq!(p.element_offsets[63], 1016 + 63 * 4);
    assert!(p.truncated);
    assert_eq!((p.payload_offset, p.payload_bytes), (1016, 400));
    let small = Object { length: Some(3), ..o };
    let q = array_preview(&small, &c).unwrap();
    assert_eq!(q.element_offsets, vec![1016, 1020, 1024]);
    assert!(!q.truncated);
    assert!(matches!(array_preview(&Object { length: None, ..o }, &c), Err(Error::MissingArrayLength)));
    assert!(matches!(array_preview(&Object { length: Some(u64::MAX), ..o }, &c), Err(Error::PayloadOverflow)));
}

#[test]
fn pattern_tally_counts_each_changed_text_once_per_name() {
    let pats: Vec<(String, String)> = vec![("fatal".into(), "(?i)fatal".into()), ("digits".into(), "[0-9]+".into())];
    let pack = Pack::build(1, &pats, b"pack").unwrap();
    let mut t = PatternTally::new();
    assert_eq!(t.record(&pack, "FATAL 42 fatal"), vec!["fatal".to_string(), "digits".to_string()]);
    assert_eq!(t.record(&pack, "quiet"), Vec::<String>::new());
    assert_eq!(t.record(&pack, "7"), vec!["digits".to_string()]);
    assert_eq!(t.offered(), 3);
    assert_eq!(t.counts().lookup("fatal"), (1, 0));
    assert_eq!(t.counts().lookup("digits"), (2, 0));
}
