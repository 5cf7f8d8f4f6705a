use zgcmaster::classmap::ClassBindings;
use zgcmaster::compare::{conforms_to, diff_check};
use zgcmaster::profiles::boot;
use zgcmaster::counts::Counts;
use zgcmaster::index::{check_readable, limitations, require_indexed, Index};
use zgcmaster::layout::{Class, Layout, PROFILE};
use zgcmaster::Error;

fn class(name: &str, klass: &str) -> Class {
    Class {
        name: name.into(),
        klass: klass.into(),
        kind: "array".into(),
        size: 24,
        fields: vec![],
        element: "byte".into(),
        base: 24,
        scale: 1,
        length_offset: 16,
    }
}

fn index(classes: Vec<Class>, only: Vec<String>) -> Index {
    Index {
        version: 1,
        mode: "layout-assisted".into(),
        heap_sha256: "0".repeat(64),
        heap_bytes: 4096,
        zero_bytes: 0,
        layout_sha256: None,
        maps_sha256: None,
        layout: Some(Layout {
            version: 1,
            profile: PROFILE.into(),
            java: "21.0.8+9".into(),
            architecture: "amd64".into(),
            classes,
        }),
        mappings: vec![],
        objects: vec![],
        raw_header_groups: vec![],
        header_group_stats: vec![],
        groups_truncated: false,
        rejected_headers: 0,
        limitations: limitations(),
        identity_mapping: true,
        only,
        streamed: false,
        class_counts: Counts::new(),
    }
}

#[test]
fn diffs_need_matching_schemas_not_identities() {
    let a = index(vec![class("[B", "0x1000"), class("[I", "0x2000")], vec![]);
    let b = index(vec![class("[I", "0x3000"), class("[B", "0x4000")], vec![]);
    assert_eq!(diff_check(&a, &b), Ok(()));
    let mut c = index(vec![class("[B", "0x1000"), class("[I", "0x2000")], vec![]);
    c.layout.as_mut().unwrap().classes[1].scale = 4;
    assert_eq!(diff_check(&a, &c), Err(Error::SchemasDiffer));
    let d = index(vec![class("[B", "0x1000")], vec![]);
    assert_eq!(diff_check(&a, &d), Err(Error::SchemasDiffer));
    let e = index(vec![class("[B", "0x1000"), class("[I", "0x2000")], vec!["[B".into()]);
    assert_eq!(diff_check(&a, &e), Err(Error::DiffNotComparable));
    let mut f = index(vec![class("[B", "0x1000"), class("[I", "0x2000")], vec![]);
    f.layout = None;
    assert_eq!(diff_check(&a, &f), Err(Error::DiffNeedsTypedIndexes));
}

#[test]
fn operations_need_their_classes_indexed() {
    let a = index(vec![class("[B", "0x1000")], vec![]);
    assert_eq!(require_indexed(&a, "[B"), Ok(()));
    assert_eq!(require_indexed(&a, "java.lang.String"), Err(Error::IndexMustInclude("java.lang.String".into())));
    let b = index(vec![class("[B", "0x1000"), class("[I", "0x2000")], vec!["[I".into()]);
    assert_eq!(require_indexed(&b, "[B"), Err(Error::IndexMustInclude("[B".into())));
    let mut c = index(vec![], vec![]);
    c.layout = None;
    assert_eq!(require_indexed(&c, "[B"), Err(Error::TypedIndexRequired));
}

#[test]
fn corpus_layouts_must_be_the_boot_templates() {
    let mut ids = ClassBindings::new();
    ids.insert("java.lang.String".into(), "0x2000".into());
    ids.insert("[B".into(), "0x3000".into());
    let expected = boot(PROFILE, &ids).unwrap();
    let same = boot(PROFILE, &ids).unwrap();
    assert!(conforms_to(&same, &expected));
    let mut moved = boot(PROFILE, &ids).unwrap();
    moved.classes.iter_mut().find(|c| c.name == "[B").unwrap().base = 32;
    assert!(!conforms_to(&moved, &expected));
    let mut fewer = boot(PROFILE, &ids).unwrap();
    fewer.classes.retain(|c| c.name != "[B");
    assert!(!conforms_to(&fewer, &expected));
}

#[test]
fn readable_indexes_match_their_source() {
    let mut a = index(vec![class("[B", "0x1000")], vec![]);
    assert_eq!(check_readable(&a, true), Ok(()));
    assert_eq!(check_readable(&a, false), Err(Error::BundleIndexRequired));
    a.layout_sha256 = Some("0".repeat(64));
    a.maps_sha256 = Some("0".repeat(64));
    assert_eq!(check_readable(&a, false), Ok(()));
    assert_eq!(check_readable(&a, true), Err(Error::RawNeedsTypedIdentityIndex));
    a.streamed = true;
    assert_eq!(check_readable(&a, false), Err(Error::StreamedIndex));
}
