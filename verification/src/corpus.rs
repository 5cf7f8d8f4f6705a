//! Bounded exact String-set differences between two captures. No event or liveness inference.
use vstd::prelude::*;
use vstd::string::StringSliceAdditionalSpecFns;
use crate::census;
use crate::counts::Counts;
use crate::error::Error;
use crate::layout::utf8_len;
use crate::raw_strings::{Decoded, DecodedView, HashStatus, PairView, spec_label, label};
use crate::references::ReferenceModel;
use crate::jstring::spec_payload_text;
use crate::text::{chars_of, str_eq};

verus! {

/// Bounds and hypotheses of a capture comparison.
#[derive(Debug)]
pub struct Options {
    pub census: census::Options,
    pub reference_hypothesis: String,
    pub min_len: u64,
    pub require_hash: bool,
    pub max_unique: usize,
    pub max_text_bytes: u64,
}

impl Options {
    /// Refuses bad census bounds, an unknown reference hypothesis, or corpus bounds outside
    /// 1..2000000 unique strings and 1..536870912 text bytes per capture, in that order.
    pub fn validate(&self) -> (r: Result<(), Error>)
        ensures
            !(1 <= self.census.max_bytes <= crate::layout::CHUNK) ==> r == Err::<(), Error>(Error::CensusMaxBytes),
            (1 <= self.census.max_bytes <= crate::layout::CHUNK) && !(16777216 <= self.census.region_bytes <= 1073741824)
                ==> r == Err::<(), Error>(Error::RegionBytes),
            (1 <= self.census.max_bytes <= crate::layout::CHUNK) && (16777216 <= self.census.region_bytes <= 1073741824)
                ==> match ReferenceModel::spec_parse(self.reference_hypothesis@) {
                    None => r == Err::<(), Error>(Error::UnknownReferenceHypothesis),
                    Some(_) => if !(1 <= self.max_unique <= 2000000) || !(1 <= self.max_text_bytes <= 536870912) {
                        r == Err::<(), Error>(Error::CorpusBounds)
                    } else {
                        r is Ok
                    },
                },
    {
        self.census.validate()?;
        ReferenceModel::parse(self.reference_hypothesis.as_str())?;
        if !(1 <= self.max_unique && self.max_unique <= 2000000) || !(1 <= self.max_text_bytes && self.max_text_bytes <= 536870912) {
            return Err(Error::CorpusBounds);
        }
        Ok(())
    }
}

/// UTF-16 code units of a text.
pub open spec fn utf16_len(s: Seq<char>) -> nat
    decreases s.len(),
{
    if s.len() == 0 {
        0
    } else {
        utf16_len(s.drop_last()) + if s.last() as u32 > 0xffff { 2nat } else { 1nat }
    }
}

fn count_utf16(s: &str) -> (n: u128)
    ensures
        n == utf16_len(s@),
{
    let cs = chars_of(s);
    let mut n: u128 = 0;
    let mut i: usize = 0;
    while i < cs.len()
        invariant
            i <= cs@.len(),
            n == utf16_len(cs@.take(i as int)),
            n <= 2 * i,
        decreases cs@.len() - i,
    {
        assert(cs@.take(i + 1).drop_last() =~= cs@.take(i as int));
        if (cs[i] as u32) > 0xffff {
            n = n + 2;
        } else {
            n = n + 1;
        }
        i = i + 1;
    }
    assert(cs@.take(cs@.len() as int) =~= cs@);
    n
}

/// What a String candidate contributes to a capture's corpus: a counter name for dropped
/// candidates, or its exact text.
pub open spec fn spec_entry(d: DecodedView, require_hash: bool, min_len: u64) -> Result<Seq<char>, Seq<char>> {
    match d {
        DecodedView::Rejected(r) => Err(r.spec_name()),
        DecodedView::Pair(p) => if p.status == HashStatus::Mismatch {
            Err("hash-mismatch"@)
        } else if require_hash && p.status == HashStatus::NotCached {
            Err("skipped-unhashed"@)
        } else if spec_payload_text(p.payload, p.coder).1 {
            Err("skipped-lossy-text"@)
        } else if utf16_len(spec_payload_text(p.payload, p.coder).0) < min_len {
            Err("skipped-short"@)
        } else {
            Ok(spec_payload_text(p.payload, p.coder).0)
        },
    }
}

/// One capture's decoded String set: each exact text with its first String offset and
/// occurrence count, plus the counters of all candidates.
pub struct Corpus {
    strings: Counts,
    text_bytes: u64,
    counts: Counts,
    candidates: u64,
}

impl Corpus {
    /// Texts with (occurrences, first offset).
    pub closed spec fn texts(&self) -> Counts {
        self.strings
    }

    /// Candidate counters by rejection reason, hash status or skip.
    pub closed spec fn tally(&self) -> Counts {
        self.counts
    }

    /// UTF-8 bytes of the distinct texts.
    pub closed spec fn stored_bytes(&self) -> nat {
        self.text_bytes as nat
    }

    pub closed spec fn seen(&self) -> nat {
        self.candidates as nat
    }

    pub closed spec fn wf(&self) -> bool {
        &&& self.strings.wf()
        &&& self.strings.positive()
        &&& self.counts.wf()
        &&& forall|n: Seq<char>| #[trigger] self.counts.get(n).0 <= self.candidates
        &&& forall|n: Seq<char>| #[trigger] self.strings.get(n).0 <= self.candidates
    }

    pub fn new() -> (c: Corpus)
        ensures
            c.wf(),
            c.seen() == 0,
            c.stored_bytes() == 0,
            forall|n: Seq<char>| #[trigger] c.texts().get(n) == (0u64, 0u64),
            forall|n: Seq<char>| #[trigger] c.tally().get(n) == (0u64, 0u64),
            c.texts().view_entries().len() == 0,
            c.tally().view_entries().len() == 0,
    {
        let c = Corpus { strings: Counts::new(), text_bytes: 0, counts: Counts::new(), candidates: 0 };
        assert forall|n: Seq<char>| #[trigger] c.texts().get(n) == (0u64, 0u64) by {
            assert(!(exists|i: int| #[trigger] crate::counts::named_at(c.strings.view_entries(), n, i)));
        }
        assert forall|n: Seq<char>| #[trigger] c.tally().get(n) == (0u64, 0u64) by {
            assert(!(exists|i: int| #[trigger] crate::counts::named_at(c.counts.view_entries(), n, i)));
        }
        c
    }

    pub fn texts_ref(&self) -> (r: &Counts)
        ensures
            *r == self.texts(),
    {
        &self.strings
    }

    pub fn tally_ref(&self) -> (r: &Counts)
        ensures
            *r == self.tally(),
    {
        &self.counts
    }

    pub fn stored_utf8_bytes(&self) -> (n: u64)
        ensures
            n == self.stored_bytes(),
    {
        self.text_bytes
    }

    pub fn candidates(&self) -> (n: u64)
        ensures
            n == self.seen(),
    {
        self.candidates
    }

    /// Adds one String candidate at `offset`. A new text that would exceed `max_unique`
    /// texts or `max_text_bytes` of text refuses the whole corpus.
    pub fn record(&mut self, d: &Decoded, offset: u64, options: &Options) -> (r: Result<(), Error>)
        requires
            old(self).wf(),
            old(self).seen() < u64::MAX,
        ensures
            r is Ok ==> final(self).wf(),
            r is Ok ==> final(self).seen() == old(self).seen() + 1,
            match spec_entry(d@, options.require_hash, options.min_len) {
                Err(name) => r is Ok && final(self).texts() == old(self).texts()
                    && final(self).stored_bytes() == old(self).stored_bytes()
                    && forall|n: Seq<char>| #[trigger] final(self).tally().get(n).0 == old(self).tally().get(n).0 + if n == name { 1int } else { 0int },
                Ok(text) => if old(self).texts().get(text).0 > 0 {
                    r is Ok && final(self).texts().get(text) == ((old(self).texts().get(text).0 + 1) as u64, old(self).texts().get(text).1)
                        && final(self).stored_bytes() == old(self).stored_bytes()
                        && (forall|n: Seq<char>| n != text ==> #[trigger] final(self).texts().get(n) == old(self).texts().get(n))
                        && forall|n: Seq<char>| #[trigger] final(self).tally().get(n).0 == old(self).tally().get(n).0 + if n == spec_label(d@) { 1int } else { 0int }
                } else if old(self).texts().view_entries().len() == options.max_unique
                    || old(self).stored_bytes() + utf8_len(text) > options.max_text_bytes {
                    r == Err::<(), Error>(Error::CorpusLimit)
                } else {
                    r is Ok && final(self).texts().get(text) == (1u64, offset)
                        && final(self).stored_bytes() == old(self).stored_bytes() + utf8_len(text)
                        && (forall|n: Seq<char>| n != text ==> #[trigger] final(self).texts().get(n) == old(self).texts().get(n))
                        && forall|n: Seq<char>| #[trigger] final(self).tally().get(n).0 == old(self).tally().get(n).0 + if n == spec_label(d@) { 1int } else { 0int }
                },
            },
    {
        self.candidates = self.candidates + 1;
        let p = match d {
            Decoded::Rejected(reason) => {
                self.counts.bump(reason.name());
                return Ok(());
            },
            Decoded::Pair(p) => p,
        };
        if matches!(p.status, HashStatus::Mismatch) {
            self.counts.bump("hash-mismatch");
            return Ok(());
        }
        if options.require_hash && matches!(p.status, HashStatus::NotCached) {
            self.counts.bump("skipped-unhashed");
            return Ok(());
        }
        let (text, lossy) = p.text();
        if lossy {
            self.counts.bump("skipped-lossy-text");
            return Ok(());
        }
        if count_utf16(text.as_str()) < options.min_len as u128 {
            self.counts.bump("skipped-short");
            return Ok(());
        }
        let (c, _) = self.strings.lookup(text.as_str());
        if c == 0 {
            let ts = text.as_str();
            let bytes = ts.as_bytes().len() as u64;
            assert(ts.spec_bytes().len() == utf8_len(text@));
            if self.strings.len() == options.max_unique || bytes > options.max_text_bytes || self.text_bytes > options.max_text_bytes - bytes {
                return Err(Error::CorpusLimit);
            }
            self.text_bytes = self.text_bytes + bytes;
        }
        self.strings.note(text.as_str(), offset);
        self.counts.bump(label(d));
        Ok(())
    }
}


/// The positions of the counters of `a` whose names have no occurrence in `b`.
pub open spec fn spec_only_in(a: Seq<(Seq<char>, u64, u64)>, b: &Counts, upto: int) -> Seq<usize>
    decreases upto,
{
    if upto <= 0 {
        Seq::empty()
    } else {
        let rest = spec_only_in(a, b, upto - 1);
        if b.get(a[upto - 1].0).0 == 0 { rest.push((upto - 1) as usize) } else { rest }
    }
}

/// The positions, in name order, of the names counted in `a` but not in `b`.
pub fn only_in(a: &Counts, b: &Counts) -> (r: Vec<usize>)
    requires
        b.wf(),
    ensures
        r@ == spec_only_in(a.view_entries(), b, a.view_entries().len() as int),
{
    let mut r: Vec<usize> = Vec::new();
    let mut i: usize = 0;
    while i < a.len()
        invariant
            i <= a.view_entries().len(),
            b.wf(),
            r@ == spec_only_in(a.view_entries(), b, i as int),
        decreases a.view_entries().len() - i,
    {
        let (name, _, _) = a.entry(i);
        let (c, _) = b.lookup(name.as_str());
        if c == 0 {
            r.push(i);
        }
        i = i + 1;
    }
    r
}

/// A row of a comparison of two counters: the name, then (count, total) before and after.
pub type DeltaRow = (String, (u64, u64), (u64, u64));

/// Rows for every name of `before`, then for every name only in `after`; each row holds the
/// name's counters in both.
pub fn delta_rows(before: &Counts, after: &Counts) -> (rows: Vec<DeltaRow>)
    requires
        before.wf(),
        after.wf(),
    ensures
        rows@.len() == before.view_entries().len() + spec_only_in(after.view_entries(), before, after.view_entries().len() as int).len(),
        forall|i: int| 0 <= i < before.view_entries().len() ==> (#[trigger] rows@[i]).0@ == before.view_entries()[i].0,
        forall|i: int| 0 <= i < spec_only_in(after.view_entries(), before, after.view_entries().len() as int).len() ==>
            (#[trigger] rows@[before.view_entries().len() + i]).0@
                == after.view_entries()[spec_only_in(after.view_entries(), before, after.view_entries().len() as int)[i] as int].0,
        forall|i: int| 0 <= i < rows@.len() ==> (#[trigger] rows@[i]).1 == before.get(rows@[i].0@) && rows@[i].2 == after.get(rows@[i].0@),
{
    let mut rows: Vec<DeltaRow> = Vec::new();
    let n = before.len();
    let mut i: usize = 0;
    while i < n
        invariant
            n == before.view_entries().len(),
            i <= n,
            before.wf(),
            after.wf(),
            rows@.len() == i,
            forall|k: int| 0 <= k < i ==> (#[trigger] rows@[k]).0@ == before.view_entries()[k].0,
            forall|k: int| 0 <= k < rows@.len() ==> (#[trigger] rows@[k]).1 == before.get(rows@[k].0@) && rows@[k].2 == after.get(rows@[k].0@),
        decreases n - i,
    {
        let (name, _, _) = before.entry(i);
        let b = before.lookup(name.as_str());
        let a = after.lookup(name.as_str());
        rows.push((name.clone(), b, a));
        i = i + 1;
    }
    let extra = only_in(after, before);
    let mut j: usize = 0;
    while j < extra.len()
        invariant
            n == before.view_entries().len(),
            before.wf(),
            after.wf(),
            extra@ == spec_only_in(after.view_entries(), before, after.view_entries().len() as int),
            j <= extra@.len(),
            rows@.len() == n + j,
            forall|k: int| 0 <= k < n ==> (#[trigger] rows@[k]).0@ == before.view_entries()[k].0,
            forall|k: int| 0 <= k < j ==> (#[trigger] rows@[n + k]).0@ == after.view_entries()[extra@[k] as int].0,
            forall|k: int| 0 <= k < rows@.len() ==> (#[trigger] rows@[k]).1 == before.get(rows@[k].0@) && rows@[k].2 == after.get(rows@[k].0@),
        decreases extra@.len() - j,
    {
        proof {
            lemma_only_in_bounds(after.view_entries(), before, after.view_entries().len() as int);
        }
        let (name, _, _) = after.entry(extra[j]);
        let b = before.lookup(name.as_str());
        let a = after.lookup(name.as_str());
        rows.push((name.clone(), b, a));
        j = j + 1;
    }
    rows
}

proof fn lemma_only_in_bounds(a: Seq<(Seq<char>, u64, u64)>, b: &Counts, upto: int)
    requires
        upto <= a.len(),
    ensures
        forall|k: int| 0 <= k < spec_only_in(a, b, upto).len() ==> (#[trigger] spec_only_in(a, b, upto)[k]) < upto,
    decreases upto,
{
    if upto > 0 {
        lemma_only_in_bounds(a, b, upto - 1);
        let rest = spec_only_in(a, b, upto - 1);
        let r = spec_only_in(a, b, upto);
        assert forall|k: int| 0 <= k < r.len() implies (#[trigger] r[k]) < upto by {
            if k < rest.len() {
                assert(r[k] == rest[k]);
            }
        }
    }
}

proof fn lemma_only_in_self(t: Counts, upto: int)
    requires
        t.wf(),
        t.positive(),
        0 <= upto <= t.view_entries().len(),
    ensures
        spec_only_in(t.view_entries(), &t, upto).len() == 0,
    decreases upto,
{
    if upto > 0 {
        lemma_only_in_self(t, upto - 1);
        crate::counts::lemma_get_at(t.view_entries(), upto - 1);
    }
}

proof fn lemma_only_in_len(a: Seq<(Seq<char>, u64, u64)>, b: &Counts, upto: int)
    requires
        0 <= upto,
    ensures
        spec_only_in(a, b, upto).len() <= upto,
    decreases upto,
{
    if upto > 0 {
        lemma_only_in_len(a, b, upto - 1);
    }
}

/// The labels of a capture that a String-set diff compares.
#[derive(Debug)]
pub struct CaptureLabels {
    pub profile: String,
    pub java: String,
    pub architecture: String,
    pub identity_mapping: bool,
}

/// Refuses to diff two captures unless profile, JDK labels, architecture and identity
/// mode all match; class IDs may differ.
pub fn corpus_comparable(before: &CaptureLabels, after: &CaptureLabels) -> (r: Result<(), Error>)
    ensures
        r is Ok <==> (before.profile@ == after.profile@ && before.java@ == after.java@
            && before.architecture@ == after.architecture@ && before.identity_mapping == after.identity_mapping),
        r is Err ==> r == Err::<(), Error>(Error::CorpusNotComparable),
{
    if str_eq(before.profile.as_str(), after.profile.as_str()) && str_eq(before.java.as_str(), after.java.as_str())
        && str_eq(before.architecture.as_str(), after.architecture.as_str())
        && before.identity_mapping == after.identity_mapping {
        Ok(())
    } else {
        Err(Error::CorpusNotComparable)
    }
}

/// (new, gone, unchanged) text counts of a diff: the texts only after, the texts only
/// before, and the texts after that were there before.
pub open spec fn spec_change_counts(before: &Counts, after: &Counts) -> (nat, nat, int) {
    let new = spec_only_in(after.view_entries(), before, after.view_entries().len() as int).len();
    let gone = spec_only_in(before.view_entries(), after, before.view_entries().len() as int).len();
    (new, gone, after.view_entries().len() - new)
}

/// Counts the new, gone and unchanged texts between two String sets.
pub fn change_counts(before: &Counts, after: &Counts) -> (r: (u64, u64, u64))
    requires
        before.wf(),
        after.wf(),
    ensures
        r.0 == spec_change_counts(before, after).0,
        r.1 == spec_change_counts(before, after).1,
        r.2 == spec_change_counts(before, after).2,
{
    let new = only_in(after, before);
    let gone = only_in(before, after);
    proof {
        lemma_only_in_len(after.view_entries(), before, after.view_entries().len() as int);
        lemma_only_in_len(before.view_entries(), after, before.view_entries().len() as int);
    }
    let n = new.len();
    (n as u64, gone.len() as u64, (after.len() - n) as u64)
}

/// Law: a capture's String set diffed with itself has nothing new, nothing gone, and
/// every text unchanged.
pub proof fn law_self_change_counts(c: &Corpus)
    requires
        c.wf(),
    ensures
        spec_change_counts(&c.texts(), &c.texts()) == (0nat, 0nat, c.texts().view_entries().len() as int),
{
    lemma_only_in_self(c.texts(), c.texts().view_entries().len() as int);
}

/// The signed change from `before` to `after`, when both fit in an `i64`.
pub fn signed_delta(before: u64, after: u64) -> (r: Option<i64>)
    ensures
        r == if before <= i64::MAX && after <= i64::MAX { Some((after - before) as i64) } else { None::<i64> },
{
    if before <= i64::MAX as u64 && after <= i64::MAX as u64 {
        Some(after as i64 - before as i64)
    } else {
        None
    }
}

/// Law: comparing a counter table without zero counts (such as a census's format table)
/// with itself gives no name that is only on one side, and by [`delta_rows`] a row per
/// name whose two sides are equal, so every [`signed_delta`] of it is zero.
pub proof fn law_self_delta_rows(c: &Counts)
    requires
        c.wf(),
        c.positive(),
    ensures
        spec_only_in(c.view_entries(), c, c.view_entries().len() as int).len() == 0,
{
    lemma_only_in_self(*c, c.view_entries().len() as int);
}

} // verus!
