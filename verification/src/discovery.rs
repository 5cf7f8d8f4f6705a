//! Experimental String/byte[] and HashMap-node binding proposals from sampled header
//! groups: evidence under an explicit reference hypothesis, never an automatic binding.
use vstd::prelude::*;
use crate::bytes::{le_value, mark_ok, mark_shape_ok, spec_aligned, aligned, word_at};
use crate::digest::{sha256, sha256_digest};
use crate::error::Error;
use crate::index::Index;
use crate::jstring::{java_hash, string_hash, code_units};
use crate::dictionaries::{aligned_target, spec_overlaps_pair, overlaps_pair};
use crate::raw_strings::{Bindings, BindingsView, Decoded, DecodedView, HashStatus, array_base};
use crate::references::ReferenceModel;
use crate::scanner::word_of;
use crate::spacing::{Kind, group_key, spec_group_key};
use crate::number::{number, spec_number};
use crate::rank::{rank_top, top_ranked};
use crate::spacing::{GroupStats, MIN_GAPS};
use crate::summary::{keyed, keyed_hits};
use crate::text::{chars_of, hex_literal, occurs_at, push_hex, spec_hex_literal, str_starts_with, string_from_chars};

verus! {

/// Refuses an index with class bindings: discovery starts from an untyped scan.
pub fn require_untyped(ix: &Index) -> (r: Result<(), Error>)
    ensures
        ix.layout is None <==> r is Ok,
        r is Err ==> r == Err::<(), Error>(Error::DiscoveryNeedsUntypedIndex),
{
    if ix.layout.is_some() {
        Err(Error::DiscoveryNeedsUntypedIndex)
    } else {
        Ok(())
    }
}

/// Groups searched per header width.
pub const GROUPS_PER_WIDTH: usize = 32;
/// The largest String payload read.
pub const MAX_STRING_BYTES: u64 = 4096;
/// At most this many String/byte[] proposals are reported.
pub const MAX_PROPOSALS: usize = 16;

/// The group-key prefix of a header width.
pub open spec fn width_prefix(narrow: bool) -> Seq<char> {
    if narrow { "narrow:"@ } else { "wide:"@ }
}

fn prefix_str(narrow: bool) -> (p: &'static str)
    ensures
        p@ == width_prefix(narrow),
{
    if narrow { "narrow:" } else { "wide:" }
}

/// The groups worth searching for one width: its key prefix, not periodic, and enough
/// sampled gaps.
pub open spec fn search_mask(stats: Seq<(String, GroupStats)>, narrow: bool) -> Seq<bool> {
    stats.map_values(|e: (String, GroupStats)|
        occurs_at(e.0@, width_prefix(narrow), 0) && !e.1.periodic && e.1.sampled_gaps >= MIN_GAPS)
}

/// The `limit` searchable groups of a width with the most hits (ties by key), as indices.
pub fn search_groups(stats: &Vec<(String, GroupStats)>, narrow: bool, limit: usize) -> (picked: Vec<usize>)
    ensures
        top_ranked(keyed_hits(stats@), search_mask(stats@, narrow), limit as nat, picked@),
{
    let es = keyed(stats);
    let prefix = prefix_str(narrow);
    let mut mask: Vec<bool> = Vec::new();
    let mut i: usize = 0;
    while i < stats.len()
        invariant
            i <= stats@.len(),
            prefix@ == width_prefix(narrow),
            mask@ == search_mask(stats@, narrow).take(i as int),
        decreases stats@.len() - i,
    {
        let s = &stats[i];
        mask.push(str_starts_with(s.0.as_str(), prefix) && !s.1.periodic && s.1.sampled_gaps >= MIN_GAPS);
        assert(search_mask(stats@, narrow).take(i + 1) =~= search_mask(stats@, narrow).take(i as int).push(mask@.last()));
        i = i + 1;
    }
    assert(search_mask(stats@, narrow).take(stats@.len() as int) =~= search_mask(stats@, narrow));
    rank_top(&es, &mask, limit)
}

/// The class word a group key names after its width prefix.
pub fn group_klass(key: &str, narrow: bool) -> (r: Result<u64, Error>)
    requires
        occurs_at(key@, width_prefix(narrow), 0),
    ensures
        match spec_number(key@.skip(width_prefix(narrow).len() as int)) {
            Some(v) => r == Ok::<u64, Error>(v),
            None => r is Err,
        },
{
    proof {
        reveal_strlit("narrow:");
        reveal_strlit("wide:");
    }
    let cs = chars_of(key);
    let n: usize = if narrow { 7 } else { 5 };
    let rest = vstd::slice::slice_subrange(cs.as_slice(), n, cs.len());
    assert(rest@ =~= key@.skip(width_prefix(narrow).len() as int));
    let s = string_from_chars(rest);
    number(s.as_str())
}

/// `v` strictly increases.
pub open spec fn increasing(v: Seq<u64>) -> bool {
    forall|i: int, j: int| 0 <= i < j < v.len() ==> v[i] < v[j]
}

/// Inserts `x` into a strictly increasing vector, keeping it so.
pub fn insert_sorted(v: &mut Vec<u64>, x: u64)
    requires
        increasing(old(v)@),
    ensures
        increasing(final(v)@),
        final(v)@.to_set() == old(v)@.to_set().insert(x),
        final(v)@.len() <= old(v)@.len() + 1,
{
    let ghost before = v@;
    let mut i: usize = 0;
    while i < v.len() && v[i] < x
        invariant
            i <= v@.len(),
            v@ == before,
            forall|k: int| 0 <= k < i ==> v@[k] < x,
        decreases v@.len() - i,
    {
        i = i + 1;
    }
    if i < v.len() && v[i] == x {
        assert(before.to_set().insert(x) =~= before.to_set()) by {
            assert(before[i as int] == x);
        }
        return;
    }
    v.insert(i, x);
    assert(v@ == before.insert(i as int, x));
    assert forall|a: int, b: int| 0 <= a < b < v@.len() implies v@[a] < v@[b] by {
        if b < i {
        } else if b == i {
        } else if a < i {
            assert(v@[b] == before[b - 1]);
            if i < before.len() {
                assert(before[i as int] > x);
                assert(before[i as int] <= before[b - 1]);
            }
        } else if a == i {
            assert(v@[b] == before[b - 1]);
            assert(before[i as int] > x);
            if b - 1 > i {
                assert(before[i as int] < before[b - 1]);
            }
        } else {
            assert(v@[a] == before[a - 1] && v@[b] == before[b - 1]);
        }
    }
    assert(v@.to_set() =~= before.to_set().insert(x)) by {
        assert forall|y: u64| v@.to_set().contains(y) <==> before.to_set().insert(x).contains(y) by {
            if v@.contains(y) {
                let k = choose|k: int| 0 <= k < v@.len() && v@[k] == y;
                if k < i {
                    assert(before[k] == y);
                } else if k > i {
                    assert(before[k - 1] == y);
                }
            }
            if before.contains(y) {
                let k = choose|k: int| 0 <= k < before.len() && before[k] == y;
                if k < i {
                    assert(v@[k] == y);
                } else {
                    assert(v@[k + 1] == y);
                }
            }
            if y == x {
                assert(v@[i as int] == x);
            }
        }
    }
}

/// The offsets sampled from a group: its first and last hit and both ends of every gap
/// example.
pub open spec fn sample_set(s: GroupStats) -> Set<u64> {
    Set::new(|o: u64| o == s.first_offset || o == s.last_offset
        || exists|i: int| 0 <= i < s.gap_examples@.len()
            && ((#[trigger] s.gap_examples@[i]).from == o || s.gap_examples@[i].to == o))
}

/// The sampled offsets of a group, ascending and distinct (see [`sample_set`]).
pub fn sample_offsets(s: &GroupStats) -> (r: Vec<u64>)
    ensures
        increasing(r@),
        r@.to_set() == sample_set(*s),
        r@.len() <= 2 * s.gap_examples@.len() + 2,
{
    let mut v: Vec<u64> = Vec::new();
    insert_sorted(&mut v, s.first_offset);
    insert_sorted(&mut v, s.last_offset);
    let mut i: usize = 0;
    while i < s.gap_examples.len()
        invariant
            i <= s.gap_examples@.len(),
            increasing(v@),
            v@.len() <= 2 * i + 2,
            v@.to_set() == Set::new(|o: u64| o == s.first_offset || o == s.last_offset
                || exists|k: int| 0 <= k < i && ((#[trigger] s.gap_examples@[k]).from == o || s.gap_examples@[k].to == o)),
        decreases s.gap_examples@.len() - i,
    {
        let ghost before = v@.to_set();
        let g = s.gap_examples[i];
        insert_sorted(&mut v, g.from);
        insert_sorted(&mut v, g.to);
        assert(v@.to_set() =~= Set::new(|o: u64| o == s.first_offset || o == s.last_offset
                || exists|k: int| 0 <= k < i + 1 && ((#[trigger] s.gap_examples@[k]).from == o || s.gap_examples@[k].to == o))) by {
            assert(s.gap_examples@[i as int] == g);
        }
        i = i + 1;
    }
    assert(v@.to_set() =~= sample_set(*s));
    v
}

/// What a sampled String header offers: nothing, or an eligible header (nonzero cached
/// hash, coder 0 or 1) with its value reference resolved, when it resolves, to an 8-aligned
/// offset other than the header's own.
#[derive(Debug, Clone, Copy, PartialEq, Eq)]
pub enum StringProbe {
    Skip,
    Eligible { cached: u32, coder: u8, target: Option<u64> },
}

/// The width of a class word.
pub open spec fn klass_bytes(narrow: bool) -> int {
    if narrow { 4 } else { 8 }
}

/// The first field offset after the header: the `hash` field of a String.
pub open spec fn hash_offset(narrow: bool) -> int {
    if narrow { 12 } else { 16 }
}

/// Judges the 32 bytes at `offset` as a String header of class `klass`.
pub open spec fn spec_probe_string(b: Seq<u8>, narrow: bool, klass: u64, model: ReferenceModel, offset: u64) -> StringProbe {
    let kw = klass_bytes(narrow);
    let hash_at = hash_offset(narrow);
    let cached = word_of(b, hash_at, 4) as u32;
    let coder = b[hash_at + 4];
    if !mark_shape_ok(word_of(b, 0, 8)) || word_of(b, 8, kw) != klass {
        StringProbe::Skip
    } else if cached == 0 || coder > 1 || b[hash_at + 5] != 0 {
        StringProbe::Skip
    } else {
        let target = match model.spec_target(word_of(b, 24, 8) as u64) {
            Some(t) => if t % 8 == 0 && t != offset { Some(t) } else { None },
            None => None,
        };
        StringProbe::Eligible { cached, coder, target }
    }
}

pub fn probe_string(b: &[u8], narrow: bool, klass: u64, model: ReferenceModel, offset: u64) -> (r: StringProbe)
    requires
        b@.len() == 32,
    ensures
        r == spec_probe_string(b@, narrow, klass, model, offset),
{
    let kw: usize = if narrow { 4 } else { 8 };
    let hash_at: usize = if narrow { 12 } else { 16 };
    if !mark_ok(b) || word_at(b, 8, kw) != klass {
        return StringProbe::Skip;
    }
    let cached = word_at(b, hash_at, 4) as u32;
    let coder = b[hash_at + 4];
    if cached == 0 || coder > 1 || b[hash_at + 5] != 0 {
        return StringProbe::Skip;
    }
    let target = match model.target(word_at(b, 24, 8)) {
        Some(t) => if t % 8 == 0 && t != offset { Some(t) } else { None },
        None => None,
    };
    StringProbe::Eligible { cached, coder, target }
}

/// The statistics stored under a group key: the first entry with that key.
pub open spec fn stats_for(stats: Seq<(String, GroupStats)>, key: Seq<char>) -> Option<GroupStats>
    decreases stats.len(),
{
    if stats.len() == 0 {
        None
    } else if stats[0].0@ == key {
        Some(stats[0].1)
    } else {
        stats_for(stats.drop_first(), key)
    }
}

/// Whether the group `key` was recorded and is not periodic.
pub fn usable_group(stats: &Vec<(String, GroupStats)>, key: &str) -> (r: bool)
    ensures
        r == (stats_for(stats@, key@) matches Some(s) && !s.periodic),
{
    let mut i: usize = 0;
    assert(stats@.skip(0) =~= stats@);
    while i < stats.len()
        invariant
            i <= stats@.len(),
            stats_for(stats@, key@) == stats_for(stats@.skip(i as int), key@),
        decreases stats@.len() - i,
    {
        assert(stats@.skip(i as int).drop_first() =~= stats@.skip(i + 1));
        if crate::text::str_eq(stats[i].0.as_str(), key) {
            return !stats[i].1.periodic;
        }
        i = i + 1;
    }
    false
}

/// A byte[] candidate behind a String: its class word, payload offset and length.
#[derive(Debug, Clone, Copy, PartialEq, Eq)]
pub struct ArrayHit {
    pub array_klass: u64,
    pub payload_offset: u64,
    pub length: u64,
}

/// The header size of a byte array (its payload offset).
pub open spec fn byte_array_base(narrow: bool) -> int {
    if narrow { 16 } else { 24 }
}

/// Judges the 24 bytes at `target` as the byte[] of the String at `offset`: a plausible
/// header of another class whose group was recorded and is not periodic, a length of
/// 3..4096 bytes (even for UTF-16), within the capture and not overlapping the String header.
pub open spec fn spec_probe_array(a: Seq<u8>, narrow: bool, klass: u64, coder: u8, offset: u64, target: u64,
    heap_bytes: u64, stats: Seq<(String, GroupStats)>) -> Option<ArrayHit> {
    let kw = klass_bytes(narrow);
    let array_klass = word_of(a, 8, kw) as u64;
    let kind = if narrow { Kind::Narrow } else { Kind::Wide };
    let len = word_of(a, 8 + kw, 4) as u64;
    let base = byte_array_base(narrow);
    if !mark_shape_ok(word_of(a, 0, 8)) {
        None
    } else if array_klass == klass || !(stats_for(stats, spec_group_key(kind, array_klass)) matches Some(s) && !s.periodic) {
        None
    } else if !(3 <= len <= MAX_STRING_BYTES) || (coder == 1 && len % 2 != 0) {
        None
    } else {
        match spec_aligned((base + len) as u64) {
            None => None,
            Some(n) => if target + n > u64::MAX {
                None
            } else {
                let end = target + n;
                if end > heap_bytes || (offset < end && target < offset + 32) {
                    None
                } else {
                    Some(ArrayHit { array_klass, payload_offset: (target + base) as u64, length: len })
                }
            },
        }
    }
}

pub fn probe_array(a: &[u8], narrow: bool, klass: u64, coder: u8, offset: u64, target: u64, heap_bytes: u64,
    stats: &Vec<(String, GroupStats)>) -> (r: Option<ArrayHit>)
    requires
        a@.len() == 24,
        offset <= u64::MAX - 32,
    ensures
        r == spec_probe_array(a@, narrow, klass, coder, offset, target, heap_bytes, stats@),
{
    let kw: usize = if narrow { 4 } else { 8 };
    if !mark_ok(a) {
        return None;
    }
    let array_klass = word_at(a, 8, kw);
    let kind = if narrow { Kind::Narrow } else { Kind::Wide };
    if array_klass == klass || !usable_group(stats, group_key(kind, array_klass).as_str()) {
        return None;
    }
    let len = word_at(a, 8 + kw, 4);
    if !(3 <= len && len <= MAX_STRING_BYTES) || (coder == 1 && len % 2 != 0) {
        return None;
    }
    let base: u64 = if narrow { 16 } else { 24 };
    let n = match aligned(base + len) {
        None => {
            return None;
        },
        Some(n) => n,
    };
    let end = match target.checked_add(n) {
        None => {
            return None;
        },
        Some(e) => e,
    };
    if end > heap_bytes || (offset < end && target < offset + 32) {
        return None;
    }
    Some(ArrayHit { array_klass, payload_offset: target + base, length: len })
}

/// A String whose nonzero cached hash equals the hash of its byte[] payload.
#[derive(Debug)]
pub struct Hit {
    pub string_offset: u64,
    pub array_offset: u64,
    pub array_klass: u64,
    pub length: u64,
    pub coder: u8,
    /// SHA-256 of the payload.
    pub digest: Vec<u8>,
}

pub struct HitView {
    pub string_offset: u64,
    pub array_offset: u64,
    pub array_klass: u64,
    pub length: u64,
    pub coder: u8,
    pub digest: Seq<u8>,
}

impl View for Hit {
    type V = HitView;

    open spec fn view(&self) -> HitView {
        HitView {
            string_offset: self.string_offset,
            array_offset: self.array_offset,
            array_klass: self.array_klass,
            length: self.length,
            coder: self.coder,
            digest: self.digest@,
        }
    }
}

/// The views of some hits.
pub open spec fn hit_views(hits: Seq<Hit>) -> Seq<HitView> {
    hits.map_values(|h: Hit| h@)
}

/// Checks a payload against the cached hash of the String at `string_offset` whose
/// byte[] is `array`: a hit exactly when the Java String hash of the payload's code units
/// equals the cached hash.
pub fn confirm(payload: &[u8], coder: u8, cached: u32, string_offset: u64, array_offset: u64, array: ArrayHit) -> (r: Option<Hit>)
    ensures
        r is Some <==> string_hash(code_units(payload@, coder)) == cached,
        r matches Some(h) ==> h@ == (HitView {
            string_offset,
            array_offset,
            array_klass: array.array_klass,
            length: array.length,
            coder,
            digest: sha256(payload@),
        }),
{
    if java_hash(payload, coder) != cached {
        return None;
    }
    Some(Hit {
        string_offset,
        array_offset,
        array_klass: array.array_klass,
        length: array.length,
        coder,
        digest: sha256_digest(payload),
    })
}

/// The hits on byte[] class `k`, in order.
pub open spec fn of_klass(hits: Seq<HitView>, k: u64) -> Seq<HitView>
    decreases hits.len(),
{
    if hits.len() == 0 {
        Seq::empty()
    } else {
        let rest = of_klass(hits.drop_last(), k);
        if hits.last().array_klass == k { rest.push(hits.last()) } else { rest }
    }
}

/// An example of a hit for the report.
#[derive(Debug, Clone, Copy, PartialEq, Eq)]
pub struct Example {
    pub string_offset: u64,
    pub array_offset: u64,
    pub array_bytes: u64,
    pub coder: u8,
}

pub open spec fn example_of(h: HitView) -> Example {
    Example { string_offset: h.string_offset, array_offset: h.array_offset, array_bytes: h.length, coder: h.coder }
}

/// The evidence for one byte[] class.
#[derive(Debug)]
pub struct Evidence {
    pub array_klass: u64,
    pub matches: u64,
    pub distinct_strings: u64,
    pub distinct_arrays: u64,
    pub distinct_payloads: u64,
    /// The first four hits.
    pub examples: Vec<Example>,
}

/// The evidence of the hits on `k`: their number, the distinct String offsets, array
/// offsets and payload digests among them, and the first four as examples.
pub open spec fn describes(e: Evidence, hits: Seq<HitView>, k: u64) -> bool {
    let hs = of_klass(hits, k);
    &&& e.array_klass == k
    &&& e.matches == hs.len()
    &&& e.distinct_strings == hs.map_values(|h: HitView| h.string_offset).to_set().len()
    &&& e.distinct_arrays == hs.map_values(|h: HitView| h.array_offset).to_set().len()
    &&& e.distinct_payloads == hs.map_values(|h: HitView| h.digest).to_set().len()
    &&& e.examples@ == hs.map_values(|h: HitView| example_of(h)).take(if hs.len() < 4 { hs.len() as int } else { 4 })
}

proof fn lemma_of_klass_push(hits: Seq<HitView>, i: int, k: u64)
    requires
        0 <= i < hits.len(),
    ensures
        of_klass(hits.take(i + 1), k) == if hits[i].array_klass == k {
            of_klass(hits.take(i), k).push(hits[i])
        } else {
            of_klass(hits.take(i), k)
        },
{
    assert(hits.take(i + 1).drop_last() =~= hits.take(i));
}

proof fn lemma_of_klass_len(hits: Seq<HitView>, k: u64)
    ensures
        of_klass(hits, k).len() <= hits.len(),
    decreases hits.len(),
{
    if hits.len() > 0 {
        lemma_of_klass_len(hits.drop_last(), k);
    }
}

proof fn lemma_increasing_len(v: Seq<u64>)
    requires
        increasing(v),
    ensures
        v.to_set().len() == v.len(),
{
    assert(v.no_duplicates()) by {
        assert forall|i: int, j: int| 0 <= i < v.len() && 0 <= j < v.len() && i != j implies v[i] != v[j] by {
            if i < j {
                assert(v[i] < v[j]);
            } else {
                assert(v[j] < v[i]);
            }
        }
    }
    v.unique_seq_to_set();
}

fn bytes_eq(a: &[u8], b: &[u8]) -> (r: bool)
    ensures
        r == (a@ == b@),
{
    if a.len() != b.len() {
        return false;
    }
    let mut i: usize = 0;
    while i < a.len()
        invariant
            a@.len() == b@.len(),
            i <= a@.len(),
            forall|k: int| 0 <= k < i ==> a@[k] == b@[k],
        decreases a@.len() - i,
    {
        if a[i] != b[i] {
            return false;
        }
        i = i + 1;
    }
    assert(a@ =~= b@);
    true
}

/// Adds a digest to a duplicate-free list of digests.
fn insert_digest(v: &mut Vec<Vec<u8>>, d: &Vec<u8>)
    requires
        old(v)@.map_values(|x: Vec<u8>| x@).no_duplicates(),
    ensures
        final(v)@.map_values(|x: Vec<u8>| x@).no_duplicates(),
        final(v)@.map_values(|x: Vec<u8>| x@).to_set() == old(v)@.map_values(|x: Vec<u8>| x@).to_set().insert(d@),
{
    let ghost before = v@.map_values(|x: Vec<u8>| x@);
    let mut i: usize = 0;
    while i < v.len()
        invariant
            i <= v@.len(),
            before == v@.map_values(|x: Vec<u8>| x@),
            before.no_duplicates(),
            forall|k: int| 0 <= k < i ==> before[k] != d@,
        decreases v@.len() - i,
    {
        if bytes_eq(v[i].as_slice(), d.as_slice()) {
            assert(before[i as int] == d@);
            assert(before.to_set().insert(d@) =~= before.to_set());
            return;
        }
        i = i + 1;
    }
    v.push(d.clone());
    let ghost after = v@.map_values(|x: Vec<u8>| x@);
    assert(after =~= before.push(d@));
    assert(!before.contains(d@));
    assert(after.to_set() =~= before.to_set().insert(d@)) by {
        before.lemma_push_to_set_commute(d@);
    }
}

/// The evidence of the hits on `k` (see [`describes`]).
pub fn evidence(hits: &Vec<Hit>, k: u64) -> (e: Evidence)
    requires
        hits@.len() <= u64::MAX,
    ensures
        describes(e, hit_views(hits@), k),
{
    let ghost hv = hit_views(hits@);
    let mut matches: u64 = 0;
    let mut strings: Vec<u64> = Vec::new();
    let mut arrays: Vec<u64> = Vec::new();
    let mut payloads: Vec<Vec<u8>> = Vec::new();
    let mut examples: Vec<Example> = Vec::new();
    let mut i: usize = 0;
    while i < hits.len()
        invariant
            i <= hits@.len(),
            hits@.len() <= u64::MAX,
            hv == hit_views(hits@),
            matches == of_klass(hv.take(i as int), k).len(),
            matches <= i,
            increasing(strings@),
            increasing(arrays@),
            payloads@.map_values(|x: Vec<u8>| x@).no_duplicates(),
            strings@.to_set() == of_klass(hv.take(i as int), k).map_values(|h: HitView| h.string_offset).to_set(),
            arrays@.to_set() == of_klass(hv.take(i as int), k).map_values(|h: HitView| h.array_offset).to_set(),
            payloads@.map_values(|x: Vec<u8>| x@).to_set() == of_klass(hv.take(i as int), k).map_values(|h: HitView| h.digest).to_set(),
            examples@ == of_klass(hv.take(i as int), k).map_values(|h: HitView| example_of(h)).take(
                if matches < 4 { matches as int } else { 4 }),
        decreases hits@.len() - i,
    {
        let ghost before = of_klass(hv.take(i as int), k);
        proof {
            lemma_of_klass_push(hv, i as int, k);
            lemma_of_klass_len(hv.take(i as int), k);
        }
        let h = &hits[i];
        assert(hv[i as int] == h@);
        if h.array_klass == k {
            let ghost after = before.push(h@);
            assert(after.map_values(|h: HitView| h.string_offset) =~= before.map_values(|h: HitView| h.string_offset).push(h.string_offset));
            assert(after.map_values(|h: HitView| h.array_offset) =~= before.map_values(|h: HitView| h.array_offset).push(h.array_offset));
            assert(after.map_values(|h: HitView| h.digest) =~= before.map_values(|h: HitView| h.digest).push(h.digest@));
            proof {
                before.map_values(|h: HitView| h.string_offset).lemma_push_to_set_commute(h.string_offset);
                before.map_values(|h: HitView| h.array_offset).lemma_push_to_set_commute(h.array_offset);
                before.map_values(|h: HitView| h.digest).lemma_push_to_set_commute(h.digest@);
            }
            insert_sorted(&mut strings, h.string_offset);
            insert_sorted(&mut arrays, h.array_offset);
            insert_digest(&mut payloads, &h.digest);
            if examples.len() < 4 {
                examples.push(Example { string_offset: h.string_offset, array_offset: h.array_offset, array_bytes: h.length, coder: h.coder });
            }
            assert(examples@ =~= after.map_values(|h: HitView| example_of(h)).take(
                if matches + 1 < 4 { matches + 1 } else { 4 }));
            matches = matches + 1;
        }
        i = i + 1;
    }
    assert(hv.take(hits@.len() as int) =~= hv);
    proof {
        lemma_increasing_len(strings@);
        lemma_increasing_len(arrays@);
        payloads@.map_values(|x: Vec<u8>| x@).unique_seq_to_set();
    }
    Evidence {
        array_klass: k,
        matches,
        distinct_strings: strings.len() as u64,
        distinct_arrays: arrays.len() as u64,
        distinct_payloads: payloads.len() as u64,
        examples,
    }
}

/// The byte[] classes of some hits.
pub open spec fn hit_klasses(hits: Seq<HitView>) -> Set<u64> {
    hits.map_values(|h: HitView| h.array_klass).to_set()
}

/// The evidence per byte[] class, in ascending class order (see [`describes`]).
pub fn gather(hits: &Vec<Hit>) -> (r: Vec<Evidence>)
    requires
        hits@.len() <= u64::MAX,
    ensures
        increasing(r@.map_values(|e: Evidence| e.array_klass)),
        r@.map_values(|e: Evidence| e.array_klass).to_set() == hit_klasses(hit_views(hits@)),
        forall|i: int| 0 <= i < r@.len() ==> describes(#[trigger] r@[i], hit_views(hits@), r@[i].array_klass),
{
    let ghost hv = hit_views(hits@);
    let mut ks: Vec<u64> = Vec::new();
    let mut i: usize = 0;
    while i < hits.len()
        invariant
            i <= hits@.len(),
            hv == hit_views(hits@),
            increasing(ks@),
            ks@.to_set() == hv.take(i as int).map_values(|h: HitView| h.array_klass).to_set(),
        decreases hits@.len() - i,
    {
        proof {
            assert(hv.take(i + 1).map_values(|h: HitView| h.array_klass) =~= hv.take(i as int).map_values(|h: HitView| h.array_klass).push(hv[i as int].array_klass));
            hv.take(i as int).map_values(|h: HitView| h.array_klass).lemma_push_to_set_commute(hv[i as int].array_klass);
        }
        insert_sorted(&mut ks, hits[i].array_klass);
        i = i + 1;
    }
    assert(hv.take(hits@.len() as int) =~= hv);
    let mut r: Vec<Evidence> = Vec::new();
    let mut j: usize = 0;
    while j < ks.len()
        invariant
            j <= ks@.len(),
            hits@.len() <= u64::MAX,
            hv == hit_views(hits@),
            r@.map_values(|e: Evidence| e.array_klass) == ks@.take(j as int),
            forall|x: int| 0 <= x < r@.len() ==> describes(#[trigger] r@[x], hv, r@[x].array_klass),
        decreases ks@.len() - j,
    {
        let e = evidence(hits, ks[j]);
        let ghost before = r@;
        r.push(e);
        assert(r@.map_values(|e: Evidence| e.array_klass) =~= before.map_values(|e: Evidence| e.array_klass).push(ks@[j as int]));
        assert(ks@.take(j + 1) =~= ks@.take(j as int).push(ks@[j as int]));
        assert forall|x: int| 0 <= x < r@.len() implies describes(#[trigger] r@[x], hv, r@[x].array_klass) by {
            if x < before.len() {
                assert(r@[x] == before[x]);
            }
        }
        j = j + 1;
    }
    assert(ks@.take(ks@.len() as int) =~= ks@);
    r
}

/// Enough independent evidence for a proposal: three distinct Strings, arrays and payloads.
pub open spec fn spec_supported(e: Evidence) -> bool {
    e.distinct_strings >= 3 && e.distinct_arrays >= 3 && e.distinct_payloads >= 3
}

pub fn supported(e: &Evidence) -> (r: bool)
    ensures
        r == spec_supported(*e),
{
    e.distinct_strings >= 3 && e.distinct_arrays >= 3 && e.distinct_payloads >= 3
}

/// A String/byte[] binding proposal under one header width and reference hypothesis.
#[derive(Debug)]
pub struct Proposal {
    pub narrow: bool,
    pub model: ReferenceModel,
    pub string_klass: u64,
    /// Structurally eligible Strings sampled for this group and hypothesis.
    pub eligible: u64,
    pub evidence: Evidence,
}

impl Proposal {
    /// Whether a class word is one the proposal already binds (its String or its byte
    /// array class); such a class is no candidate for a map node.
    pub fn binds(&self, klass: u64) -> (r: bool)
        ensures
            r == (klass == self.string_klass || klass == self.evidence.array_klass),
    {
        klass == self.string_klass || klass == self.evidence.array_klass
    }
}

/// Proposals ranked by hash matches, then by hypothesis name.
pub open spec fn proposal_keys(ps: Seq<Proposal>) -> Seq<(Seq<char>, u64)> {
    ps.map_values(|p: Proposal| (p.model.spec_name(), p.evidence.matches))
}

/// The `limit` best proposals in order: most hash matches first, then by hypothesis name,
/// then in the order found.
pub fn rank_proposals(ps: &Vec<Proposal>, limit: usize) -> (picked: Vec<usize>)
    ensures
        top_ranked(proposal_keys(ps@), Seq::new(ps@.len(), |i: int| true), limit as nat, picked@),
{
    let mut es: Vec<(String, u64)> = Vec::new();
    let mut all: Vec<bool> = Vec::new();
    let mut i: usize = 0;
    while i < ps.len()
        invariant
            i <= ps@.len(),
            es@.map_values(|e: (String, u64)| (e.0@, e.1)) == proposal_keys(ps@).take(i as int),
            all@ == Seq::new(i as nat, |k: int| true),
        decreases ps@.len() - i,
    {
        let ghost before = es@;
        es.push((ps[i].model.name().to_owned(), ps[i].evidence.matches));
        assert(es@.map_values(|e: (String, u64)| (e.0@, e.1)) =~= before.map_values(|e: (String, u64)| (e.0@, e.1)).push((ps@[i as int].model.spec_name(), ps@[i as int].evidence.matches)));
        assert(proposal_keys(ps@).take(i + 1) =~= proposal_keys(ps@).take(i as int).push((ps@[i as int].model.spec_name(), ps@[i as int].evidence.matches)));
        all.push(true);
        assert(all@ =~= Seq::new((i + 1) as nat, |k: int| true));
        i = i + 1;
    }
    assert(proposal_keys(ps@).take(ps@.len() as int) =~= proposal_keys(ps@));
    rank_top(&es, &all, limit)
}

/// At most this many String proposals anchor the node search.
pub const MAX_ANCHORS: usize = 4;
/// Groups searched per anchor.
pub const NODE_GROUPS: usize = 128;
/// At most this many node proposals are reported.
pub const MAX_NODE_PROPOSALS: usize = 16;

/// A node sample that held together: its key String (hash-confirmed, matching the node's
/// spread hash), its value String if one resolved, and its next link if not null.
#[derive(Debug)]
pub struct NodeHit {
    pub node_offset: u64,
    pub key_offset: u64,
    /// SHA-256 of the key's payload.
    pub key_digest: Vec<u8>,
    pub value: Option<(u64, HashStatus)>,
    pub next: Option<u64>,
    /// The stored spread hash has its sign bit set.
    pub negative: bool,
}

pub struct NodeHitView {
    pub node_offset: u64,
    pub key_offset: u64,
    pub key_digest: Seq<u8>,
    pub value: Option<(u64, HashStatus)>,
    pub next: Option<u64>,
    pub negative: bool,
}

impl View for NodeHit {
    type V = NodeHitView;

    open spec fn view(&self) -> NodeHitView {
        NodeHitView {
            node_offset: self.node_offset,
            key_offset: self.key_offset,
            key_digest: self.key_digest@,
            value: self.value,
            next: self.next,
            negative: self.negative,
        }
    }
}

/// The next step of judging a sampled node: drop it, decode a String, read the next node's
/// header, or a hit.
#[derive(Debug)]
pub enum NodeProbe {
    Skip,
    DecodeKey(u64),
    ReadNext(u64),
    DecodeValue(u64),
    Hit(NodeHit),
}

pub enum NodeProbeView {
    Skip,
    DecodeKey(u64),
    ReadNext(u64),
    DecodeValue(u64),
    Hit(NodeHitView),
}

impl View for NodeProbe {
    type V = NodeProbeView;

    open spec fn view(&self) -> NodeProbeView {
        match self {
            NodeProbe::Skip => NodeProbeView::Skip,
            NodeProbe::DecodeKey(t) => NodeProbeView::DecodeKey(*t),
            NodeProbe::ReadNext(t) => NodeProbeView::ReadNext(*t),
            NodeProbe::DecodeValue(t) => NodeProbeView::DecodeValue(*t),
            NodeProbe::Hit(h) => NodeProbeView::Hit(h@),
        }
    }
}

/// The size of a node prefix: header, hash, key, value and next fields.
pub open spec fn node_bytes(narrow: bool) -> u64 {
    (array_base(narrow) + 24) as u64
}

/// The value part of a node hit: a value String that resolved, decoded, and neither
/// mismatches its hash nor overlaps the node.
pub open spec fn node_value(b: BindingsView, offset: u64, value_raw: u64, value: Option<DecodedView>) -> Option<Option<(u64, HashStatus)>> {
    match aligned_target(b, value_raw) {
        None => Some(None),
        Some(_) => match value {
            None => None,
            Some(DecodedView::Rejected(_)) => Some(None),
            Some(DecodedView::Pair(v)) => if v.status != HashStatus::Mismatch && !spec_overlaps_pair(offset, node_bytes(b.narrow), v, b.narrow) {
                Some(Some((v.offset, v.status)))
            } else {
                Some(None)
            },
        },
    }
}

/// Judges the node sample at `offset` of class `klass` from its bytes and what was decoded
/// or read so far: a plausible header of the class; a key String that resolves, decodes
/// with a matching nonzero cached hash whose spread equals the node's stored hash, and
/// does not overlap the node; a null next link or one to a non-overlapping, 8-aligned header
/// of the same class; and the value String when one resolves.
pub open spec fn spec_probe_node(b: BindingsView, klass: u64, offset: u64, node: Seq<u8>,
    key: Option<DecodedView>, next: Option<Option<Seq<u8>>>, value: Option<DecodedView>) -> NodeProbeView {
    let kw = klass_bytes(b.narrow);
    let ka = array_base(b.narrow) as int;
    let nb = node_bytes(b.narrow);
    let stored = word_of(node, 8 + kw, 4) as u32;
    let raw_key = word_of(node, ka, 8) as u64;
    let value_raw = word_of(node, ka + 8, 8) as u64;
    let next_raw = word_of(node, ka + 16, 8) as u64;
    if !mark_shape_ok(word_of(node, 0, 8)) || word_of(node, 8, kw) != klass {
        NodeProbeView::Skip
    } else {
        match aligned_target(b, raw_key) {
            None => NodeProbeView::Skip,
            Some(t) => match key {
                None => NodeProbeView::DecodeKey(t),
                Some(DecodedView::Rejected(_)) => NodeProbeView::Skip,
                Some(DecodedView::Pair(k)) => if k.status != HashStatus::Match
                    || stored != k.computed ^ (k.computed >> 16u32)
                    || spec_overlaps_pair(offset, nb, k, b.narrow) {
                    NodeProbeView::Skip
                } else {
                    let link: Option<Option<u64>> = if b.model.spec_is_null(next_raw) {
                        Some(None)
                    } else {
                        match b.model.spec_target(next_raw) {
                            Some(n) if n % 8 == 0 && !(offset < n + nb && n < offset + nb) => match next {
                                None => None,
                                Some(None) => Some(None),
                                Some(Some(h)) => if h.len() >= nb && mark_shape_ok(word_of(h, 0, 8)) && word_of(h, 8, kw) == klass {
                                    Some(Some(n))
                                } else {
                                    Some(None)
                                },
                            },
                            _ => Some(None),
                        }
                    };
                    let chained = !b.model.spec_is_null(next_raw);
                    match link {
                        None => match b.model.spec_target(next_raw) {
                            Some(n) => NodeProbeView::ReadNext(n),
                            None => NodeProbeView::Skip,
                        },
                        Some(l) => if chained && l is None {
                            NodeProbeView::Skip
                        } else {
                            match node_value(b, offset, value_raw, value) {
                                None => match aligned_target(b, value_raw) {
                                    Some(vt) => NodeProbeView::DecodeValue(vt),
                                    None => NodeProbeView::Skip,
                                },
                                Some(v) => NodeProbeView::Hit(NodeHitView {
                                    node_offset: offset,
                                    key_offset: k.offset,
                                    key_digest: sha256(k.payload),
                                    value: v,
                                    next: l,
                                    negative: stored & 0x8000_0000u32 != 0,
                                }),
                            }
                        },
                    }
                },
            },
        }
    }
}

/// Judges a sampled node (see [`spec_probe_node`]).
pub fn probe_node(b: &Bindings, klass: u64, offset: u64, node: &[u8], key: Option<&Decoded>,
    next: Option<Option<&[u8]>>, value: Option<&Decoded>) -> (r: NodeProbe)
    requires
        node@.len() == node_bytes(b@.narrow),
    ensures
        r@ == spec_probe_node(b@, klass, offset, node@,
            match key { Some(d) => Some(d@), None => None },
            match next { Some(Some(h)) => Some(Some(h@)), Some(None) => Some(None::<Seq<u8>>), None => None },
            match value { Some(d) => Some(d@), None => None }),
{
    let kw = b.kw();
    let narrow = b.narrow();
    let model = b.model();
    let ka: usize = if narrow { 16 } else { 24 };
    let nb: u64 = ka as u64 + 24;
    if !mark_ok(node) || word_at(node, 8, kw) != klass {
        return NodeProbe::Skip;
    }
    let stored = word_at(node, 8 + kw, 4) as u32;
    let raw_key = word_at(node, ka, 8);
    let value_raw = word_at(node, ka + 8, 8);
    let next_raw = word_at(node, ka + 16, 8);
    let t = match model.target(raw_key) {
        Some(t) => if t % 8 == 0 { t } else {
            return NodeProbe::Skip;
        },
        None => {
            return NodeProbe::Skip;
        },
    };
    let k = match key {
        None => {
            return NodeProbe::DecodeKey(t);
        },
        Some(Decoded::Rejected(_)) => {
            return NodeProbe::Skip;
        },
        Some(Decoded::Pair(k)) => k,
    };
    if !matches!(k.status, HashStatus::Match) || stored != k.computed ^ (k.computed >> 16u32)
        || overlaps_pair(offset, nb, k, narrow) {
        return NodeProbe::Skip;
    }
    let link: Option<u64> = if model.is_null(next_raw) {
        None
    } else {
        match model.target(next_raw) {
            Some(n) => {
                let o = offset as u128;
                let m = n as u128;
                let w = nb as u128;
                if n % 8 == 0 && !(o < m + w && m < o + w) {
                    match next {
                        None => {
                            return NodeProbe::ReadNext(n);
                        },
                        Some(None) => {
                            return NodeProbe::Skip;
                        },
                        Some(Some(h)) => {
                            if h.len() as u64 >= nb && mark_ok(h) && word_at(h, 8, kw) == klass {
                                Some(n)
                            } else {
                                return NodeProbe::Skip;
                            }
                        },
                    }
                } else {
                    return NodeProbe::Skip;
                }
            },
            None => {
                return NodeProbe::Skip;
            },
        }
    };
    let v: Option<(u64, HashStatus)> = match model.target(value_raw) {
        Some(vt) if vt % 8 == 0 => match value {
            None => {
                return NodeProbe::DecodeValue(vt);
            },
            Some(Decoded::Rejected(_)) => None,
            Some(Decoded::Pair(v)) => if !matches!(v.status, HashStatus::Mismatch) && !overlaps_pair(offset, nb, v, narrow) {
                Some((v.offset, v.status))
            } else {
                None
            },
        },
        _ => None,
    };
    NodeProbe::Hit(NodeHit {
        node_offset: offset,
        key_offset: k.offset,
        key_digest: sha256_digest(k.payload.as_slice()),
        value: v,
        next: link,
        negative: stored & 0x8000_0000u32 != 0,
    })
}

/// Whether a hit's value String has a confirmed (or zero-hash-confirmed) cached hash.
pub open spec fn hashed_value(h: NodeHitView) -> bool {
    h.value matches Some(v) && (v.1 == HashStatus::Match || v.1 == HashStatus::ZeroHashMatch)
}

/// Among some node hits: those with a String value, with a hash-confirmed String value, with
/// a next link, and with a negative spread hash.
pub open spec fn node_counts(hs: Seq<NodeHitView>) -> (nat, nat, nat, nat)
    decreases hs.len(),
{
    if hs.len() == 0 {
        (0, 0, 0, 0)
    } else {
        let c = node_counts(hs.drop_last());
        let h = hs.last();
        (
            c.0 + if h.value is Some { 1nat } else { 0nat },
            c.1 + if hashed_value(h) { 1nat } else { 0nat },
            c.2 + if h.next is Some { 1nat } else { 0nat },
            c.3 + if h.negative { 1nat } else { 0nat },
        )
    }
}

/// An example node hit for the report.
#[derive(Debug, Clone, Copy, PartialEq, Eq)]
pub struct NodeExample {
    pub node_offset: u64,
    pub key_offset: u64,
    pub value: Option<(u64, HashStatus)>,
    pub next: Option<u64>,
}

pub open spec fn node_example_of(h: NodeHitView) -> NodeExample {
    NodeExample { node_offset: h.node_offset, key_offset: h.key_offset, value: h.value, next: h.next }
}

/// The evidence of one node group.
#[derive(Debug)]
pub struct NodeEvidence {
    pub matches: u64,
    pub distinct_keys: u64,
    pub distinct_payloads: u64,
    pub string_values: u64,
    pub hashed_values: u64,
    pub linked: u64,
    pub negative: u64,
    /// The first four hits.
    pub examples: Vec<NodeExample>,
}

pub open spec fn node_hit_views(hits: Seq<NodeHit>) -> Seq<NodeHitView> {
    hits.map_values(|h: NodeHit| h@)
}

/// The evidence of some node hits: their number, distinct keys and key payloads, the four
/// counts of [`node_counts`], and the first four as examples.
pub open spec fn describes_nodes(e: NodeEvidence, hs: Seq<NodeHitView>) -> bool {
    let c = node_counts(hs);
    &&& e.matches == hs.len()
    &&& e.distinct_keys == hs.map_values(|h: NodeHitView| h.key_offset).to_set().len()
    &&& e.distinct_payloads == hs.map_values(|h: NodeHitView| h.key_digest).to_set().len()
    &&& e.string_values == c.0
    &&& e.hashed_values == c.1
    &&& e.linked == c.2
    &&& e.negative == c.3
    &&& e.examples@ == hs.map_values(|h: NodeHitView| node_example_of(h)).take(if hs.len() < 4 { hs.len() as int } else { 4 })
}

proof fn lemma_node_counts_bound(hs: Seq<NodeHitView>)
    ensures
        node_counts(hs).0 <= hs.len(),
        node_counts(hs).1 <= hs.len(),
        node_counts(hs).2 <= hs.len(),
        node_counts(hs).3 <= hs.len(),
    decreases hs.len(),
{
    if hs.len() > 0 {
        lemma_node_counts_bound(hs.drop_last());
    }
}

/// The evidence of a group's node hits (see [`describes_nodes`]).
pub fn node_evidence(hits: &Vec<NodeHit>) -> (e: NodeEvidence)
    requires
        hits@.len() <= u64::MAX,
    ensures
        describes_nodes(e, node_hit_views(hits@)),
{
    let ghost hv = node_hit_views(hits@);
    let mut keys: Vec<u64> = Vec::new();
    let mut payloads: Vec<Vec<u8>> = Vec::new();
    let mut examples: Vec<NodeExample> = Vec::new();
    let mut values: u64 = 0;
    let mut hashed: u64 = 0;
    let mut linked: u64 = 0;
    let mut negative: u64 = 0;
    let mut i: usize = 0;
    while i < hits.len()
        invariant
            i <= hits@.len(),
            hits@.len() <= u64::MAX,
            hv == node_hit_views(hits@),
            increasing(keys@),
            payloads@.map_values(|x: Vec<u8>| x@).no_duplicates(),
            keys@.to_set() == hv.take(i as int).map_values(|h: NodeHitView| h.key_offset).to_set(),
            payloads@.map_values(|x: Vec<u8>| x@).to_set() == hv.take(i as int).map_values(|h: NodeHitView| h.key_digest).to_set(),
            (values as nat, hashed as nat, linked as nat, negative as nat) == node_counts(hv.take(i as int)),
            examples@ == hv.take(i as int).map_values(|h: NodeHitView| node_example_of(h)).take(if i < 4 { i as int } else { 4 }),
        decreases hits@.len() - i,
    {
        let ghost before = hv.take(i as int);
        let h = &hits[i];
        assert(hv[i as int] == h@);
        assert(hv.take(i + 1) =~= before.push(h@));
        assert(hv.take(i + 1).drop_last() =~= before);
        proof {
            lemma_node_counts_bound(before);
            assert(before.push(h@).map_values(|h: NodeHitView| h.key_offset) =~= before.map_values(|h: NodeHitView| h.key_offset).push(h.key_offset));
            assert(before.push(h@).map_values(|h: NodeHitView| h.key_digest) =~= before.map_values(|h: NodeHitView| h.key_digest).push(h.key_digest@));
            before.map_values(|h: NodeHitView| h.key_offset).lemma_push_to_set_commute(h.key_offset);
            before.map_values(|h: NodeHitView| h.key_digest).lemma_push_to_set_commute(h.key_digest@);
        }
        insert_sorted(&mut keys, h.key_offset);
        insert_digest(&mut payloads, &h.key_digest);
        if h.value.is_some() {
            values = values + 1;
        }
        match h.value {
            Some((_, st)) => {
                if matches!(st, HashStatus::Match) || matches!(st, HashStatus::ZeroHashMatch) {
                    hashed = hashed + 1;
                }
            },
            None => {},
        }
        if h.next.is_some() {
            linked = linked + 1;
        }
        if h.negative {
            negative = negative + 1;
        }
        if examples.len() < 4 {
            examples.push(NodeExample { node_offset: h.node_offset, key_offset: h.key_offset, value: h.value, next: h.next });
        }
        assert(examples@ =~= hv.take(i + 1).map_values(|h: NodeHitView| node_example_of(h)).take(if i + 1 < 4 { i + 1 } else { 4 }));
        i = i + 1;
    }
    assert(hv.take(hits@.len() as int) =~= hv);
    proof {
        lemma_increasing_len(keys@);
        payloads@.map_values(|x: Vec<u8>| x@).unique_seq_to_set();
    }
    NodeEvidence {
        matches: hits.len() as u64,
        distinct_keys: keys.len() as u64,
        distinct_payloads: payloads.len() as u64,
        string_values: values,
        hashed_values: hashed,
        linked,
        negative,
        examples,
    }
}

/// Enough independent node evidence: three matches, three distinct keys and key payloads.
pub open spec fn spec_node_supported(e: NodeEvidence) -> bool {
    e.matches >= 3 && e.distinct_keys >= 3 && e.distinct_payloads >= 3
}

pub fn node_supported(e: &NodeEvidence) -> (r: bool)
    ensures
        r == spec_node_supported(*e),
{
    e.matches >= 3 && e.distinct_keys >= 3 && e.distinct_payloads >= 3
}

/// The combined bindings of a node proposal as compact JSON, keys in order.
pub open spec fn spec_bindings_text(string_klass: u64, array_klass: u64, node_klass: u64) -> Seq<char> {
    "{\"[B\":\""@ + spec_hex_literal(array_klass) + "\",\"java.lang.String\":\""@ + spec_hex_literal(string_klass)
        + "\",\"java.util.HashMap$Node\":\""@ + spec_hex_literal(node_klass) + "\"}"@
}

pub fn bindings_text(string_klass: u64, array_klass: u64, node_klass: u64) -> (s: String)
    ensures
        s@ == spec_bindings_text(string_klass, array_klass, node_klass),
{
    let mut out = chars_of("{\"[B\":\"");
    out.append(&mut chars_of(hex_literal(array_klass).as_str()));
    out.append(&mut chars_of("\",\"java.lang.String\":\""));
    out.append(&mut chars_of(hex_literal(string_klass).as_str()));
    out.append(&mut chars_of("\",\"java.util.HashMap$Node\":\""));
    out.append(&mut chars_of(hex_literal(node_klass).as_str()));
    out.append(&mut chars_of("\"}"));
    string_from_chars(out.as_slice())
}

/// A HashMap-node binding proposal, anchored on a String/byte[] proposal.
#[derive(Debug)]
pub struct NodeProposal {
    /// The position of the anchoring proposal.
    pub anchor: usize,
    pub node_klass: u64,
    pub sampled_offsets: u64,
    /// The combined bindings as compact JSON (see [`spec_bindings_text`]).
    pub bindings: String,
    pub evidence: NodeEvidence,
}

pub open spec fn node_proposal_keys(ps: Seq<NodeProposal>) -> Seq<(Seq<char>, u64)> {
    ps.map_values(|p: NodeProposal| (p.bindings@, p.evidence.matches))
}

/// The `limit` best node proposals in order: most matches first, then by bindings text,
/// then in the order found.
pub fn rank_node_proposals(ps: &Vec<NodeProposal>, limit: usize) -> (picked: Vec<usize>)
    ensures
        top_ranked(node_proposal_keys(ps@), Seq::new(ps@.len(), |i: int| true), limit as nat, picked@),
{
    let mut es: Vec<(String, u64)> = Vec::new();
    let mut all: Vec<bool> = Vec::new();
    let mut i: usize = 0;
    while i < ps.len()
        invariant
            i <= ps@.len(),
            es@.map_values(|e: (String, u64)| (e.0@, e.1)) == node_proposal_keys(ps@).take(i as int),
            all@ == Seq::new(i as nat, |k: int| true),
        decreases ps@.len() - i,
    {
        let ghost before = es@;
        es.push((ps[i].bindings.clone(), ps[i].evidence.matches));
        assert(es@.map_values(|e: (String, u64)| (e.0@, e.1)) =~= before.map_values(|e: (String, u64)| (e.0@, e.1)).push((ps@[i as int].bindings@, ps@[i as int].evidence.matches)));
        assert(node_proposal_keys(ps@).take(i + 1) =~= node_proposal_keys(ps@).take(i as int).push((ps@[i as int].bindings@, ps@[i as int].evidence.matches)));
        all.push(true);
        assert(all@ =~= Seq::new((i + 1) as nat, |k: int| true));
        i = i + 1;
    }
    assert(node_proposal_keys(ps@).take(ps@.len() as int) =~= node_proposal_keys(ps@));
    rank_top(&es, &all, limit)
}

/// `x` held in 64 bits, stopping at `u64::MAX`.
pub open spec fn saturated(x: int) -> u64 {
    if x > u64::MAX { u64::MAX } else { x as u64 }
}

/// The work of a discovery run: header groups looked at (and whether a bound left some
/// out), structurally eligible samples, bounded reads and hash-confirmed pairs.
#[derive(Debug, Clone, Copy)]
pub struct Effort {
    pub groups_considered: u64,
    pub groups_truncated: bool,
    pub checked: u64,
    pub reads: u64,
    pub hash_matches: u64,
}

impl Effort {
    /// No work yet; `truncated` when the index already left header groups out.
    pub fn new(truncated: bool) -> (e: Effort)
        ensures
            e == (Effort { groups_considered: 0, groups_truncated: truncated, checked: 0, reads: 0, hash_matches: 0 }),
    {
        Effort { groups_considered: 0, groups_truncated: truncated, checked: 0, reads: 0, hash_matches: 0 }
    }

    /// Counts `groups` more groups searched; `truncated` when a bound left some out.
    pub fn consider(&mut self, groups: usize, truncated: bool)
        ensures
            *final(self) == (Effort {
                groups_considered: saturated(old(self).groups_considered + groups),
                groups_truncated: old(self).groups_truncated || truncated,
                ..*old(self)
            }),
    {
        self.groups_considered = self.groups_considered.saturating_add(groups as u64);
        self.groups_truncated = self.groups_truncated || truncated;
    }

    /// Counts `n` more bounded reads.
    pub fn read(&mut self, n: u64)
        ensures
            *final(self) == (Effort { reads: saturated(old(self).reads + n), ..*old(self) }),
    {
        self.reads = self.reads.saturating_add(n);
    }

    /// Counts one more structurally eligible sample.
    pub fn check(&mut self)
        ensures
            *final(self) == (Effort { checked: saturated(old(self).checked + 1), ..*old(self) }),
    {
        self.checked = self.checked.saturating_add(1);
    }

    /// Counts one more hash-confirmed pair.
    pub fn confirm(&mut self)
        ensures
            *final(self) == (Effort { hash_matches: saturated(old(self).hash_matches + 1), ..*old(self) }),
    {
        self.hash_matches = self.hash_matches.saturating_add(1);
    }
}

/// The verdict of a discovery over `found` proposals kept to `limit`: a status, and whether
/// the limit left proposals out.
pub fn outcome(found: usize, limit: usize) -> (r: (&'static str, bool))
    ensures
        r.0@ == if found == 0 { "no-supported-proposal"@ } else { "review-required"@ },
        r.1 == (found > limit),
{
    proof {
        reveal_strlit("no-supported-proposal");
        reveal_strlit("review-required");
    }
    (if found == 0 { "no-supported-proposal" } else { "review-required" }, found > limit)
}

/// Law: an eligible String header carries its cached hash in the 32-bit little-endian word
/// right after the header (bytes 12..16 after a 4-byte class word, 16..20 after an 8-byte
/// one), its coder in the next byte, and a class word equal to `klass`.
pub proof fn law_string_probe_reads_after_header(b: Seq<u8>, narrow: bool, klass: u64, model: ReferenceModel, offset: u64)
    requires
        b.len() == 32,
    ensures
        spec_probe_string(b, narrow, klass, model, offset) matches StringProbe::Eligible { cached, coder, .. } ==> {
            &&& !narrow ==> cached == word_of(b, 16, 4) as u32 && coder == b[20] && word_of(b, 8, 8) == klass
            &&& narrow ==> cached == word_of(b, 12, 4) as u32 && coder == b[16] && word_of(b, 8, 4) == klass
            &&& cached != 0
            &&& coder <= 1
        },
{
}

} // verus!
