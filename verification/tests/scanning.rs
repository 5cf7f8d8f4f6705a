use zgcmaster::layout::{Class, Layout, PROFILE};
use zgcmaster::layout::Object;
use zgcmaster::scanner::Scanner;
use zgcmaster::index::Index;

fn array(name: &str, klass: &str, element: &str, scale: u64) -> Class {
    Class {
        name: name.into(),
        klass: klass.into(),
        kind: "array".into(),
        size: 24,
        fields: vec![],
        element: element.into(),
        base: 24,
        scale,
        length_offset: 16,
    }
}

fn layout() -> Layout {
    Layout {
        version: 1,
        profile: PROFILE.into(),
        java: "21.0.8+9".into(),
        architecture: "aarch64".into(),
        classes: vec![array("[I", "0x700000001000", "int", 4), array("[B", "0x700000002000", "byte", 1)],
    }
}

fn put(heap: &mut [u8], at: usize, klass: u64, length: u32) {
    heap[at..at + 8].copy_from_slice(&1u64.to_le_bytes());
    heap[at + 8..at + 16].copy_from_slice(&klass.to_le_bytes());
    heap[at + 16..at + 20].copy_from_slice(&length.to_le_bytes());
}

fn heap() -> Vec<u8> {
    let mut h = vec![0u8; 256];
    put(&mut h, 0, 0x700000001000, 2);
    put(&mut h, 64, 0x700000002000, 3);
    put(&mut h, 128, 0x700000001000, 0);
    h
}

fn scan(only: Vec<String>, streaming: bool) -> (Vec<Object>, Index) {
    let h = heap();
    let mut s = Scanner::start(h.len() as u64, &h[..18], Some(layout()), only, streaming).unwrap();
    let mut rows = Vec::new();
    while !s.done() {
        let base = s.base() as usize;
        let n = s.window_len();
        rows.extend(s.feed(&h[base..base + n]).unwrap().into_iter().map(|r| r.0));
        assert!(rows.len() <= 3);
    }
    let (ix, _) = s.finish(vec![], true, None).unwrap();
    (rows, ix)
}

#[test]
fn a_streamed_scan_reports_what_an_in_memory_scan_holds() {
    let (rows, ix) = scan(vec![], false);
    let (streamed_rows, streamed) = scan(vec![], true);
    assert_eq!(rows.len(), 3);
    assert_eq!(ix.objects, rows);
    assert_eq!(streamed_rows, rows);
    assert!(streamed.objects.is_empty());
    assert!(streamed.streamed && !ix.streamed);
    assert_eq!(streamed.heap_sha256, ix.heap_sha256);
    assert_eq!(streamed.raw_header_groups, ix.raw_header_groups);
    assert_eq!(streamed.class_counts.lookup("[I"), ix.class_counts.lookup("[I"));
    assert_eq!(streamed.class_counts.lookup("[B"), ix.class_counts.lookup("[B"));
}

#[test]
fn a_class_selection_filters_the_full_scan() {
    let (_, full) = scan(vec![], false);
    let (_, only) = scan(vec!["[B".to_string()], false);
    let expected: Vec<Object> = full.objects.iter().copied().filter(|o| o.class_id == 1).collect();
    assert_eq!(only.objects, expected);
    assert_eq!(only.objects.len(), 1);
    assert_eq!(only.heap_sha256, full.heap_sha256);
    assert_eq!(only.raw_header_groups, full.raw_header_groups);
    assert_eq!(only.class_counts.lookup("[B"), full.class_counts.lookup("[B"));
    assert_eq!(only.only, vec!["[B".to_string()]);
}
