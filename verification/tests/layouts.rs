use zgcmaster::classmap::ClassBindings;
use zgcmaster::layout::{validate_layout, Class, Field, Layout, PROFILE};
use zgcmaster::maps::{parse_maps, translate};
use zgcmaster::profiles::{boot, SUPPORTED};
use zgcmaster::Error;

fn layout() -> Layout {
    Layout {
        version: 1,
        profile: PROFILE.into(),
        java: "21.0.8+9".into(),
        architecture: "aarch64".into(),
        classes: vec![Class {
            name: "[I".into(),
            klass: "0x700000001000".into(),
            kind: "array".into(),
            size: 24,
            fields: vec![],
            element: "int".into(),
            base: 24,
            scale: 4,
            length_offset: 16,
        }],
    }
}

#[test]
fn mapping_uses_file_offsets_and_aliases() {
    let maps = parse_maps("1000-2000 rw-s 00002000 00:01 1 /memfd:java_heap (deleted)\n5000-6000 rw-s 00002000 00:01 1 /memfd:java_heap (deleted)", 0x4000).unwrap();
    assert_eq!(translate(&maps, 0x1234), Some(0x2234));
    assert_eq!(translate(&maps, 0x5234), Some(0x2234));
    assert_eq!(translate(&maps, 0x2000), None);
    assert!(parse_maps("1000-9000 rw-s 0 00:01 1 /memfd:java_heap", 64).is_err());
}

#[test]
fn refuses_overflowing_fields_and_overlapping_mappings() {
    let mut profile = layout();
    profile.classes[0].kind = "instance".into();
    profile.classes[0].fields = vec![Field {
        name: "bad".into(),
        offset: u64::MAX,
        field_type: "long".into(),
    }];
    assert!(validate_layout(&profile).is_err());
    assert!(parse_maps("1000-1040 rw-s 0 00:01 1 /memfd:java_heap\n1020-1040 rw-s 0 00:01 1 /memfd:java_heap", 64).is_err());
}

#[test]
fn templates_require_capture_specific_identities() {
    for profile in SUPPORTED {
        assert!(validate_layout(&boot(profile, &ClassBindings::new()).unwrap()).is_err());
        let mut bindings = ClassBindings::new();
        bindings.insert("[B".into(), "0x1000".into());
        validate_layout(&boot(profile, &bindings).unwrap()).unwrap();
    }
}

#[test]
fn a_well_formed_array_layout_validates() {
    assert_eq!(validate_layout(&layout()), Ok(()));
}

#[test]
fn boot_keeps_only_bound_classes_and_refuses_unknown_names() {
    let mut bindings = ClassBindings::new();
    bindings.insert("java.lang.String".into(), "0x2000".into());
    bindings.insert("[B".into(), "0x3000".into());
    let l = boot(SUPPORTED[1], &bindings).unwrap();
    assert_eq!(l.classes.len(), 2);
    assert_eq!(l.profile, SUPPORTED[1]);
    assert_eq!(l.architecture, "unspecified");
    let s = l.classes.iter().find(|c| c.name == "java.lang.String").unwrap();
    assert_eq!(s.klass, "0x2000");
    assert_eq!(s.size, 32);
    assert_eq!(s.fields[0].offset, 12);
    let b = l.classes.iter().find(|c| c.name == "[B").unwrap();
    assert_eq!((b.base, b.scale, b.length_offset, b.size), (16, 1, 12, 16));
    let wide = boot(PROFILE, &bindings).unwrap();
    let b = wide.classes.iter().find(|c| c.name == "[B").unwrap();
    assert_eq!((b.base, b.length_offset, b.size), (24, 16, 24));
    let mut unknown = ClassBindings::new();
    unknown.insert("made.up.Class".into(), "0x1".into());
    assert!(boot(PROFILE, &unknown).is_err());
    assert!(boot("not-a-profile", &ClassBindings::new()).is_err());
    let all = boot(PROFILE, &ClassBindings::new()).unwrap();
    assert_eq!(all.classes.len(), 6);
    assert!(all.classes.iter().all(|c| c.klass == "UNBOUND"));
}

#[test]
fn maps_need_a_heap_mapping_inside_the_file() {
    let maps = parse_maps("1000-2000 rw-s 0 00:01 1 /memfd:java_heap", 0x1000).unwrap();
    assert_eq!(maps.len(), 1);
    assert_eq!((maps[0].start, maps[0].end, maps[0].offset), (0x1000, 0x2000, 0));
    assert_eq!(translate(&maps, 0x1fff), Some(0xfff));
    assert!(parse_maps("", 0x1000).is_err());
    assert!(parse_maps("1000-2000 rw-s 0 00:01 1 /tmp/other", 0x1000).is_err());
}
