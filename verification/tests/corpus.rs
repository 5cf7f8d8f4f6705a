use zgcmaster::census::Options as CensusOptions;
use zgcmaster::corpus::{change_counts, corpus_comparable, delta_rows, only_in, CaptureLabels, Corpus, Options};
use zgcmaster::counts::Counts;
use zgcmaster::raw_strings::{Decoded, HashStatus, Pair, Reject};
use zgcmaster::Error;

fn options() -> Options {
    Options {
        census: CensusOptions::default(),
        reference_hypothesis: "nongen-low42-equals-file-offset".into(),
        min_len: 1,
        require_hash: false,
        max_unique: 1000,
        max_text_bytes: 1048576,
    }
}

fn pair(offset: u64, text: &str, status: HashStatus) -> Decoded {
    Decoded::Pair(Pair {
        offset,
        target: offset + 64,
        raw: (1 << 42) | (offset + 64),
        payload: text.as_bytes().to_vec(),
        coder: 0,
        cached: 0,
        computed: 0,
        status,
    })
}

fn corpus(texts: &[&str]) -> Corpus {
    let mut c = Corpus::new();
    for (i, t) in texts.iter().enumerate() {
        c.record(&pair(i as u64 * 256, t, HashStatus::Match), i as u64 * 256, &options()).unwrap();
    }
    c
}

#[test]
fn string_sets_diff_by_presence() {
    let a = corpus(&["common", "common", "gone"]);
    let b = corpus(&["common", "FATAL synthetic event", "{DEMO} synthetic"]);
    let new: Vec<String> = only_in(b.texts_ref(), a.texts_ref()).iter().map(|&i| b.texts_ref().entry(i).0.clone()).collect();
    let gone: Vec<String> = only_in(a.texts_ref(), b.texts_ref()).iter().map(|&i| a.texts_ref().entry(i).0.clone()).collect();
    assert_eq!(new, vec!["FATAL synthetic event".to_string(), "{DEMO} synthetic".to_string()]);
    assert_eq!(gone, vec!["gone".to_string()]);
    assert_eq!(a.texts_ref().lookup("common"), (2, 0));
    assert_eq!(a.texts_ref().len(), 2);
    assert!(only_in(a.texts_ref(), a.texts_ref()).is_empty());
    assert!(only_in(b.texts_ref(), b.texts_ref()).is_empty());
}

#[test]
fn corpus_bounds_refuse_instead_of_truncating() {
    let mut opts = options();
    opts.max_unique = 1;
    let mut c = Corpus::new();
    c.record(&pair(0, "common", HashStatus::Match), 0, &opts).unwrap();
    c.record(&pair(256, "common", HashStatus::Match), 256, &opts).unwrap();
    assert_eq!(c.record(&pair(512, "new", HashStatus::Match), 512, &opts), Err(Error::CorpusLimit));
    let mut opts = options();
    opts.max_text_bytes = 1;
    let mut c = Corpus::new();
    assert_eq!(c.record(&pair(0, "ab", HashStatus::Match), 0, &opts), Err(Error::CorpusLimit));
}

#[test]
fn skipped_candidates_are_counted_not_stored() {
    let mut c = Corpus::new();
    c.record(&pair(0, "x", HashStatus::Mismatch), 0, &options()).unwrap();
    c.record(&Decoded::Rejected(Reject::UnresolvedReference), 64, &options()).unwrap();
    let mut opts = options();
    opts.require_hash = true;
    c.record(&pair(128, "y", HashStatus::NotCached), 128, &opts).unwrap();
    opts.min_len = 5;
    c.record(&pair(192, "abc", HashStatus::Match), 192, &opts).unwrap();
    assert_eq!(c.texts_ref().len(), 0);
    assert_eq!(c.candidates(), 4);
    assert_eq!(c.tally_ref().lookup("hash-mismatch").0, 1);
    assert_eq!(c.tally_ref().lookup("skipped-unhashed").0, 1);
    assert_eq!(c.tally_ref().lookup("skipped-short").0, 1);
}

#[test]
fn census_deltas_cover_both_sides() {
    let mut before = Counts::new();
    before.add("text", 2, 20);
    before.add("jpeg", 1, 4);
    let mut after = Counts::new();
    after.add("text", 2, 22);
    after.add("pdf", 1, 8);
    let rows = delta_rows(&before, &after);
    assert_eq!(rows.len(), 3);
    assert_eq!(rows[0], ("jpeg".to_string(), (1, 4), (0, 0)));
    assert_eq!(rows[1], ("text".to_string(), (2, 20), (2, 22)));
    assert_eq!(rows[2], ("pdf".to_string(), (0, 0), (1, 8)));
    assert!(Options { max_unique: 0, ..options() }.validate().is_err());
    assert_eq!(options().validate(), Ok(()));
}

fn labels(profile: &str, java: &str, arch: &str, identity: bool) -> CaptureLabels {
    CaptureLabels { profile: profile.into(), java: java.into(), architecture: arch.into(), identity_mapping: identity }
}

#[test]
fn captures_compare_only_under_matching_labels() {
    let a = labels("jdk21-zgc", "21", "amd64", false);
    assert_eq!(corpus_comparable(&a, &labels("jdk21-zgc", "21", "amd64", false)), Ok(()));
    assert_eq!(corpus_comparable(&a, &labels("jdk17-zgc", "21", "amd64", false)), Err(Error::CorpusNotComparable));
    assert_eq!(corpus_comparable(&a, &labels("jdk21-zgc", "21.0.2", "amd64", false)), Err(Error::CorpusNotComparable));
    assert_eq!(corpus_comparable(&a, &labels("jdk21-zgc", "21", "aarch64", false)), Err(Error::CorpusNotComparable));
    assert_eq!(corpus_comparable(&a, &labels("jdk21-zgc", "21", "amd64", true)), Err(Error::CorpusNotComparable));
}

#[test]
fn change_counts_are_set_based() {
    let mut before = Counts::new();
    let mut after = Counts::new();
    for t in ["common", "common", "gone"] {
        before.add(t, 1, 0);
    }
    for t in ["common", "new", "newer"] {
        after.add(t, 1, 0);
    }
    assert_eq!(change_counts(&before, &after), (2, 1, 1));
    assert_eq!(change_counts(&before, &before), (0, 0, 2));
}
