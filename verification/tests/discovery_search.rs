use zgcmaster::discovery::{
    bindings_text, confirm, gather, group_klass, node_evidence, probe_array, probe_string, rank_proposals,
    sample_offsets, search_groups, supported, ArrayHit, Hit, NodeHit, Proposal, StringProbe,
};
use zgcmaster::jstring::java_hash;
use zgcmaster::raw_strings::HashStatus;
use zgcmaster::references::ReferenceModel;
use zgcmaster::spacing::{GapExample, GroupClass, GroupStats};

fn stats(hits: u64, periodic: bool, sampled: usize) -> GroupStats {
    GroupStats {
        hits,
        detection_votes: 0,
        first_offset: 100,
        last_offset: 500,
        total_gaps: hits.saturating_sub(1),
        sampled_gaps: sampled,
        median_twice: None,
        mode_gap: None,
        mode_sample_count: 0,
        periodic,
        classification: GroupClass::NonPeriodicCandidate,
        gap_examples: vec![
            GapExample { from: 100, to: 200, gap: 100 },
            GapExample { from: 300, to: 500, gap: 200 },
        ],
    }
}

fn le(v: u64, n: usize) -> Vec<u8> {
    v.to_le_bytes()[..n].to_vec()
}

#[test]
fn searched_groups_are_object_like_and_ranked_by_hits() {
    let groups = vec![
        ("narrow:0x10".to_string(), stats(5, false, 40)),
        ("narrow:0x20".to_string(), stats(9, false, 40)),
        ("narrow:0x30".to_string(), stats(50, true, 40)),
        ("wide:0x40".to_string(), stats(70, false, 40)),
        ("narrow:0x50".to_string(), stats(80, false, 10)),
        ("narrow:0x60".to_string(), stats(9, false, 32)),
    ];
    assert_eq!(search_groups(&groups, true, 32), vec![1, 5, 0]);
    assert_eq!(search_groups(&groups, true, 2), vec![1, 5]);
    assert_eq!(search_groups(&groups, false, 32), vec![3]);
    assert_eq!(group_klass("narrow:0x1000", true), Ok(0x1000));
    assert_eq!(group_klass("wide:4096", false), Ok(4096));
    assert!(group_klass("wide:zz", false).is_err());
    assert_eq!(sample_offsets(&groups[0].1), vec![100, 200, 300, 500]);
}

#[test]
fn string_and_array_probes_follow_the_hypothesis() {
    let mut string = vec![0u8; 32];
    string[0] = 1;
    string[8..12].copy_from_slice(&le(0x2000, 4));
    string[12..16].copy_from_slice(&le(96354, 4));
    string[24..32].copy_from_slice(&le((1 << 42) | 320, 8));
    assert_eq!(
        probe_string(&string, true, 0x2000, ReferenceModel::NonGenLow42, 0),
        StringProbe::Eligible { cached: 96354, coder: 0, target: Some(320) }
    );
    // The reference back to the header itself is not followed.
    assert_eq!(
        probe_string(&string, true, 0x2000, ReferenceModel::NonGenLow42, 320),
        StringProbe::Eligible { cached: 96354, coder: 0, target: None }
    );
    assert_eq!(probe_string(&string, true, 0x2001, ReferenceModel::NonGenLow42, 0), StringProbe::Skip);
    let mut unhashed = string.clone();
    unhashed[12..16].fill(0);
    assert_eq!(probe_string(&unhashed, true, 0x2000, ReferenceModel::NonGenLow42, 0), StringProbe::Skip);

    let groups = vec![("narrow:0x3000".to_string(), stats(5, false, 40))];
    let mut array = vec![0u8; 24];
    array[0] = 1;
    array[8..12].copy_from_slice(&le(0x3000, 4));
    array[12..16].copy_from_slice(&le(3, 4));
    assert_eq!(
        probe_array(&array, true, 0x2000, 0, 0, 320, 1024, &groups),
        Some(ArrayHit { array_klass: 0x3000, payload_offset: 336, length: 3 })
    );
    // The array must end inside the capture and must not overlap the String header.
    assert_eq!(probe_array(&array, true, 0x2000, 0, 0, 320, 336, &groups), None);
    assert_eq!(probe_array(&array, true, 0x2000, 0, 320, 320, 1024, &groups), None);
    // A periodic or unrecorded array group is not evidence.
    let periodic = vec![("narrow:0x3000".to_string(), stats(5, true, 40))];
    assert_eq!(probe_array(&array, true, 0x2000, 0, 0, 320, 1024, &periodic), None);
    assert_eq!(probe_array(&array, true, 0x2000, 0, 0, 320, 1024, &vec![]), None);
    // UTF-16 needs an even length.
    assert_eq!(probe_array(&array, true, 0x2000, 1, 0, 320, 1024, &groups), None);
}

fn hit(string_offset: u64, array_offset: u64, klass: u64, text: &[u8]) -> Hit {
    let h = java_hash(text, 0);
    confirm(text, 0, h, string_offset, array_offset, ArrayHit { array_klass: klass, payload_offset: array_offset + 16, length: text.len() as u64 })
        .unwrap()
}

#[test]
fn evidence_needs_three_distinct_strings_arrays_and_payloads() {
    assert!(confirm(b"abc", 0, 96355, 0, 320, ArrayHit { array_klass: 1, payload_offset: 336, length: 3 }).is_none());
    let h = hit(0, 320, 0x3000, b"abc");
    assert_eq!(h.digest.len(), 32);
    let hits = vec![
        hit(0, 320, 0x3000, b"abc"),
        hit(64, 384, 0x3000, b"abd"),
        hit(128, 448, 0x4000, b"abe"),
        hit(192, 512, 0x3000, b"abf"),
        hit(256, 512, 0x3000, b"abf"),
    ];
    let e = gather(&hits);
    assert_eq!(e.len(), 2);
    assert_eq!(e[0].array_klass, 0x3000);
    assert_eq!((e[0].matches, e[0].distinct_strings, e[0].distinct_arrays, e[0].distinct_payloads), (4, 4, 3, 3));
    assert_eq!(e[0].examples.len(), 4);
    assert_eq!(e[0].examples[1].string_offset, 64);
    assert!(supported(&e[0]));
    assert_eq!(e[1].array_klass, 0x4000);
    assert!(!supported(&e[1]));
}

#[test]
fn proposals_rank_by_matches_then_hypothesis_then_order() {
    let mk = |model: ReferenceModel, matches: u64| Proposal {
        narrow: true,
        model,
        string_klass: 0x2000,
        eligible: 10,
        evidence: gather(&(0..matches).map(|i| hit(i * 64, 1024 + i * 64, 0x3000, &[b'a', b'a' + i as u8])).collect())
            .into_iter()
            .next()
            .unwrap(),
    };
    let ps = vec![
        mk(ReferenceModel::NonGenLow42, 3),
        mk(ReferenceModel::GenX86LowAddress, 5),
        mk(ReferenceModel::GenArmLowAddress, 5),
        mk(ReferenceModel::GenArmLowAddress, 5),
    ];
    assert_eq!(rank_proposals(&ps, 16), vec![2, 3, 1, 0]);
    assert_eq!(rank_proposals(&ps, 2), vec![2, 3]);
    assert!(ps[0].binds(0x2000));
    assert!(ps[0].binds(ps[0].evidence.array_klass));
    assert!(!ps[0].binds(0x4000));
}

#[test]
fn node_evidence_counts_values_links_and_signs() {
    let d = |b: u8| vec![b; 32];
    let hits = vec![
        NodeHit { node_offset: 0, key_offset: 128, key_digest: d(1), value: Some((192, HashStatus::Match)), next: None, negative: false },
        NodeHit { node_offset: 64, key_offset: 128, key_digest: d(1), value: None, next: Some(0), negative: true },
        NodeHit { node_offset: 256, key_offset: 320, key_digest: d(2), value: Some((384, HashStatus::NotCached)), next: None, negative: false },
    ];
    let e = node_evidence(&hits);
    assert_eq!((e.matches, e.distinct_keys, e.distinct_payloads), (3, 2, 2));
    assert_eq!((e.string_values, e.hashed_values, e.linked, e.negative), (2, 1, 1, 1));
    assert_eq!(e.examples.len(), 3);
    assert_eq!(
        bindings_text(0x2000, 0x3000, 0x4000),
        r#"{"[B":"0x3000","java.lang.String":"0x2000","java.util.HashMap$Node":"0x4000"}"#
    );
}
