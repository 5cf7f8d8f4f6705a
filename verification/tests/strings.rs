use zgcmaster::classmap::ClassBindings;
use zgcmaster::counts::Counts;
use zgcmaster::dictionaries::{node_klasses, node_step, NextState, NodeStep};
use zgcmaster::jstring::java_hash;
use zgcmaster::profiles::SUPPORTED;
use zgcmaster::raw_strings::{confirmation, label, Bindings, DecodeStep, Decoded, HashStatus, Reservoir, Rng, StringTally, Walker};
use zgcmaster::Error;

fn bindings(profile: &str) -> Bindings {
    let mut ids = ClassBindings::new();
    let narrow = profile.contains("-compressedklass-");
    ids.insert("java.lang.String".into(), if narrow { "0x2000" } else { "0x10000002000" }.into());
    ids.insert("[B".into(), if narrow { "0x3000" } else { "0x10000003000" }.into());
    Bindings::new(profile, "nongen-low42-equals-file-offset", &ids, 1024).unwrap()
}

fn put(data: &mut [u8], at: usize, v: u64, n: usize) {
    data[at..at + n].copy_from_slice(&v.to_le_bytes()[..n]);
}

/// A String at `at` whose byte[] at `array` holds `text` (Latin-1), with its hash cached.
fn string_pair(data: &mut [u8], at: usize, array: usize, text: &[u8], narrow: bool) {
    let (kw, hash_at, base) = if narrow { (4, 12, 16) } else { (8, 16, 24) };
    let string_klass = if narrow { 0x2000 } else { 0x10000002000 };
    let array_klass = if narrow { 0x3000 } else { 0x10000003000 };
    put(data, at, 1, 8);
    put(data, at + 8, string_klass, kw);
    put(data, at + hash_at, java_hash(text, 0) as u64, 4);
    data[at + hash_at + 4] = 0;
    put(data, at + 24, (1 << 42) | array as u64, 8);
    put(data, array, 1, 8);
    put(data, array + 8, array_klass, kw);
    put(data, array + 8 + kw, text.len() as u64, 4);
    data[array + base..array + base + text.len()].copy_from_slice(text);
}

fn decode(b: &Bindings, cap: &[u8], offset: u64) -> Decoded {
    let mut reads: Vec<Vec<u8>> = Vec::new();
    loop {
        match b.decode_step(cap.len() as u64, offset, &reads) {
            DecodeStep::Read { offset, len } => reads.push(cap[offset as usize..(offset + len) as usize].to_vec()),
            DecodeStep::Done(d) => return d,
        }
    }
}

#[test]
fn strings_decode_through_the_reference_hypothesis() {
    for profile in [SUPPORTED[0], SUPPORTED[1]] {
        let narrow = profile.contains("-compressedklass-");
        let b = bindings(profile);
        let mut cap = vec![0u8; 512];
        string_pair(&mut cap, 128, 320, b"synthetic.key", narrow);
        match decode(&b, &cap, 128) {
            Decoded::Pair(p) => {
                assert_eq!((p.offset, p.target), (128, 320));
                assert_eq!(p.payload, b"synthetic.key".to_vec());
                assert_eq!(p.status, HashStatus::Match);
                assert_eq!(p.text(), ("synthetic.key".to_string(), false));
                assert_eq!(p.units(), 13);
            },
            Decoded::Rejected(r) => panic!("rejected: {}", r.name()),
        }
        // A header offset past the capture is rejected, not read.
        assert!(matches!(decode(&b, &cap, 496), Decoded::Rejected(_)));
        let mut mismatch = cap.clone();
        mismatch[if narrow { 12 } else { 16 } + 128] ^= 1;
        match decode(&b, &mismatch, 128) {
            Decoded::Pair(p) => assert_eq!(p.status, HashStatus::Mismatch),
            Decoded::Rejected(r) => panic!("rejected: {}", r.name()),
        }
    }
}

#[test]
fn string_bindings_are_explicit() {
    let mut one = ClassBindings::new();
    one.insert("java.lang.String".into(), "0x2000".into());
    assert!(matches!(Bindings::new(SUPPORTED[1], "nongen-low42-equals-file-offset", &one, 1024), Err(Error::StringBindingsRequired)));
    let mut ids = ClassBindings::new();
    ids.insert("java.lang.String".into(), "0x2000".into());
    ids.insert("[B".into(), "0x3000".into());
    assert!(matches!(Bindings::new(SUPPORTED[1], "nongen-low42-equals-file-offset", &ids, 0), Err(Error::MaxBytesRange)));
    assert!(matches!(Bindings::new(SUPPORTED[1], "gen-amd64-heap-relative-equals-file-offset", &ids, 1024),
        Err(Error::HypothesisConflictsProfile)));
    assert!(matches!(Bindings::new(SUPPORTED[1], "no-such-model", &ids, 1024), Err(Error::UnknownReferenceHypothesis)));
    let b = Bindings::new(SUPPORTED[1], "nongen-low42-equals-file-offset", &ids, 1024).unwrap();
    assert_eq!((b.narrow(), b.kw(), b.string_klass(), b.array_klass(), b.max_bytes()), (true, 4, 0x2000, 0x3000, 1024));
}

#[test]
fn the_walker_finds_string_headers_across_the_capture() {
    let mut cap = vec![0u8; 512];
    string_pair(&mut cap, 128, 320, b"abc", true);
    string_pair(&mut cap, 192, 384, b"abd", true);
    let mut w = Walker::start(cap.len() as u64, &cap[..18]).unwrap();
    let mut found = Vec::new();
    while !w.done() {
        let n = w.window_len();
        let base = w.base() as usize;
        found.extend(w.feed(&cap[base..base + n], 4, &vec![0x2000], 32));
    }
    assert_eq!(found, vec![128, 192]);
    let (size, hash, count) = w.finish();
    assert_eq!((size, count), (512, 2));
    assert_eq!(hash, zgcmaster::digest::sha256_hex(&cap));
    assert!(matches!(Walker::start(16, &cap[..16]), Err(Error::RawFileSize)));
    let mut gz = cap.clone();
    gz[0] = 0x1f;
    gz[1] = 0x8b;
    assert!(matches!(Walker::start(512, &gz[..18]), Err(Error::NotRawCapture)));
}

#[test]
fn the_tally_counts_every_candidate_and_emits_only_kept_pairs() {
    let b = bindings(SUPPORTED[1]);
    let mut cap = vec![0u8; 512];
    string_pair(&mut cap, 128, 320, b"abc", true);
    let mut t = StringTally::new();
    let d = decode(&b, &cap, 128);
    assert!(t.record(&d, 1, false));
    assert!(!t.record(&d, 4, false));
    assert_eq!(t.emitted_count(), 1);
    assert_eq!(t.counts().lookup("match").0, 2);
    assert_eq!(t.counts().lookup("skipped-short").0, 1);
    assert_eq!(label(&d), "match");
}

#[test]
fn the_reservoir_keeps_all_of_few_candidates_and_is_reproducible() {
    let mut r = Reservoir::new(5, 42).unwrap();
    for offset in [64u64, 8, 32] {
        r.offer(offset);
    }
    assert_eq!(r.seen(), 3);
    assert_eq!(r.sorted(), vec![8, 32, 64]);
    assert!(matches!(Reservoir::new(0, 0), Err(Error::SamplesRange)));
    assert!(matches!(Reservoir::new(10001, 0), Err(Error::SamplesRange)));
    let run = |seed: u64| {
        let mut r = Reservoir::new(4, seed).unwrap();
        for i in 0..100u64 {
            r.offer(i * 8);
        }
        r.sorted()
    };
    assert_eq!(run(7), run(7));
    assert_eq!(run(7).len(), 4);
    let drawn = run(7);
    assert!(drawn.iter().all(|o| o % 8 == 0 && *o < 800));
    assert!(drawn.windows(2).all(|w| w[0] < w[1]));
    let mut rng = Rng { state: 0 };
    assert_eq!(rng.next(), 0xe220a8397b1dcdaf);
    for n in [1u64, 3, 1000] {
        assert!(rng.below(n) < n);
    }
}

#[test]
fn confirmation_counts_matches_among_compared_pairs() {
    let mut c = Counts::new();
    c.add("match", 3, 0);
    c.add("zero-hash-match", 1, 0);
    c.add("mismatch", 2, 0);
    c.add("not-cached", 5, 0);
    assert_eq!(confirmation(&c), (4, 6));
}

#[test]
fn dictionary_nodes_pair_keys_and_values() {
    let b = bindings(SUPPORTED[1]);
    let mut cap = vec![0u8; 512];
    string_pair(&mut cap, 128, 320, b"synthetic.key", true);
    string_pair(&mut cap, 192, 384, b"FATAL synthetic value", true);
    let hash = java_hash(b"synthetic.key", 0);
    let spread = hash ^ (hash >> 16);
    put(&mut cap, 0, 1, 8);
    put(&mut cap, 8, 0x4000, 4);
    put(&mut cap, 12, spread as u64, 4);
    put(&mut cap, 16, (1 << 42) | 128, 8);
    put(&mut cap, 24, (1 << 42) | 192, 8);
    put(&mut cap, 32, 1 << 42, 8);
    let klasses = node_klasses(&vec![0x4000, 0x4000], true).unwrap();
    assert_eq!(klasses, vec![0x4000]);
    assert!(matches!(node_klasses(&vec![], true), Err(Error::NodeKlasses)));
    assert!(matches!(node_klasses(&vec![0x1_0000_0000], true), Err(Error::NodeKlasses)));
    let node = cap[0..40].to_vec();
    let mut key = None;
    let mut value = None;
    let record = loop {
        match node_step(&b, &klasses, true, 0, &node, key.as_ref(), value.as_ref(), None) {
            NodeStep::DecodeKey(t) => key = Some(decode(&b, &cap, t)),
            NodeStep::DecodeValue(t) => value = Some(decode(&b, &cap, t)),
            NodeStep::ReadNext(_) => panic!("a null-offset next link needs no read"),
            NodeStep::Count(name) => panic!("dropped: {name}"),
            NodeStep::Emit(r) => break r,
        }
    };
    assert_eq!(record.klass, 0x4000);
    assert_eq!(record.next_state, NextState::SelfReference);
    assert_eq!(record.next, Some(0));
    let mut unhashed = cap.clone();
    unhashed[192 + 12..192 + 16].fill(0);
    let mut key = None;
    let mut value = None;
    let outcome = loop {
        match node_step(&b, &klasses, true, 0, &node, key.as_ref(), value.as_ref(), None) {
            NodeStep::DecodeKey(t) => key = Some(decode(&b, &unhashed, t)),
            NodeStep::DecodeValue(t) => value = Some(decode(&b, &unhashed, t)),
            NodeStep::Count(name) => break name,
            other => panic!("unexpected step {other:?}"),
        }
    };
    assert_eq!(outcome, "skipped-unhashed-pair");
}
