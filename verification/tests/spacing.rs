use zgcmaster::analysis::Suggestion;
use zgcmaster::spacing::{Collector, Group, GroupClass, Kind, MAX_GROUPS, SAMPLE_GAPS};

#[test]
fn exact_440_byte_spacing_is_removed_from_votes() {
    let mut c = Collector::new();
    for i in 0..10000u64 {
        c.observe(Kind::Narrow, 0x1000, 272 + i * 440, true);
    }
    let r = c.finish();
    let s = r.get("narrow:0x1000").unwrap();
    assert_eq!(s.hits, 10000);
    assert_eq!(s.median_twice, Some(880));
    assert_eq!(s.mode_gap, Some(440));
    assert!(s.periodic);
    assert_eq!(s.sampled_gaps, SAMPLE_GAPS);
    assert_eq!(r.detection.excluded_periodic_votes.1, 10000);
    assert_eq!(r.detection.retained.narrow_votes, 0);
    assert_eq!(r.detection.suggestion, Suggestion::Inconclusive);
    assert_eq!(r.detection.suggestion.name(), "inconclusive");
    assert!(s.gap_examples.iter().any(|g| g.to > 3_000_000));
}

#[test]
fn threshold_is_strict_and_small_samples_are_unclassified() {
    let mut g = Group::new(0);
    g.observe(0, true);
    let mut offset = 0;
    for i in 0..40 {
        offset += if i < 36 { 440 } else { 448 };
        g.observe(offset, true);
    }
    let s = g.finish();
    // A mode fraction of 0.9: 36 of 40 sampled gaps.
    assert_eq!(s.sampled_gaps, 40);
    assert_eq!(s.mode_sample_count, 36);
    assert!(!s.periodic);
    let mut g = Group::new(0);
    for i in 0..32 {
        g.observe(i * 440, true);
    }
    let s = g.finish();
    assert!(!s.periodic);
    assert_eq!(s.classification.name(), "insufficient-spacing-evidence");
    let mut g = Group::new(0);
    for i in 0..34 {
        g.observe(i * 440, true);
    }
    assert!(g.finish().periodic);
}

#[test]
fn reservoir_does_not_classify_only_the_first_prefix() {
    let mut g = Group::new(0);
    let mut offset = 0;
    for i in 0..20000u64 {
        g.observe(offset, true);
        offset += if i < 1000 { 440 } else { 24 + 8 * (i % 11) };
    }
    let s = g.finish();
    assert!(!s.periodic);
    // The mode fraction stays below 0.3.
    assert!(s.sampled_gaps > 0);
    assert!((s.mode_sample_count as f64) / (s.sampled_gaps as f64) < 0.3);
}

#[test]
fn dropped_groups_and_vote_predicates_are_accounted_for() {
    let mut c = Collector::new();
    for i in 0..MAX_GROUPS as u64 {
        c.observe(Kind::Narrow, 0x1000 + i, i * 32, false);
    }
    c.observe(Kind::Narrow, 0x9000, MAX_GROUPS as u64 * 32, true);
    let r = c.finish();
    assert!(r.truncated);
    assert_eq!(r.stats.len(), MAX_GROUPS);
    assert_eq!(r.detection.untracked_votes.1, 1);
    assert_eq!(r.detection.raw_votes.1, 1);
    assert_eq!(r.detection.suggestion, Suggestion::Inconclusive);
    assert_eq!(r.get("narrow:0x1000").unwrap().detection_votes, 0);
}

#[test]
fn median_of_an_even_sample_is_the_mean_of_the_middle_gaps() {
    let mut g = Group::new(0);
    for offset in [0u64, 8, 24, 48, 80] {
        g.observe(offset, false);
    }
    let s = g.finish();
    // Gaps 8, 16, 24, 32: the median is 20.
    assert_eq!(s.median_twice, Some(40));
    assert_eq!(s.total_gaps, 4);
    assert_eq!(s.first_offset, 0);
    assert_eq!(s.last_offset, 80);
    // Every gap occurs once: the smallest wins the tie.
    assert_eq!(s.mode_gap, Some(8));
    assert_eq!(s.mode_sample_count, 1);
    assert_eq!(s.classification, GroupClass::InsufficientSpacingEvidence);
    assert_eq!(s.gap_examples.len(), 4);
    assert_eq!(s.gap_examples[0].from, 0);
    assert_eq!(s.gap_examples[0].to, 8);
    assert_eq!(s.gap_examples[3].gap, 32);
}

#[test]
fn an_empty_group_has_no_gaps() {
    let g = Group::new(7);
    let s = g.finish();
    assert_eq!(s.hits, 0);
    assert_eq!(s.total_gaps, 0);
    assert_eq!(s.median_twice, None);
    assert_eq!(s.mode_gap, None);
    assert!(s.gap_examples.is_empty());
}

#[test]
fn a_clear_majority_of_narrow_votes_suggests_compressed_klass() {
    let mut c = Collector::new();
    for i in 0..40u64 {
        c.observe(Kind::Narrow, 0x2000 + i, i * 64, true);
    }
    let r = c.finish();
    assert!(!r.truncated);
    assert_eq!(r.detection.raw_votes, (0, 40));
    assert_eq!(r.detection.suggestion, Suggestion::CompressedKlass);
    assert!(!r.detection.confidence_withheld);
    assert_eq!(r.get("wide:0x2000").map(|s| s.hits), None);
    assert_eq!(r.get("narrow:0x2000").unwrap().hits, 1);
}

#[test]
fn votes_reconcile_across_retained_excluded_and_untracked() {
    let mut c = Collector::new();
    for i in 0..100u64 {
        c.observe(Kind::Narrow, 0x1000, 272 + i * 440, true);
    }
    for i in 0..10u64 {
        c.observe(Kind::Wide, 0x1_0000_0000 + 8 * i, 1_000_000 + i * 64, i % 2 == 0);
    }
    let r = c.finish();
    let d = r.detection;
    assert_eq!(d.raw_votes.0, d.retained.wide_votes + d.excluded_periodic_votes.0 + d.untracked_votes.0);
    assert_eq!(d.raw_votes.1, d.retained.narrow_votes + d.excluded_periodic_votes.1 + d.untracked_votes.1);
    assert_eq!(d.raw_votes, (5, 100));
    assert_eq!(d.excluded_periodic_votes, (0, 100));
    assert_eq!(d.retained.wide_votes, 5);
}
