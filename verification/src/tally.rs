//! The running totals of a byte[] census: formats, printable bands and UTF-8 status of the
//! payloads, and per-region counters.
use vstd::prelude::*;
use crate::census::{classify, magic, spec_classify, spec_magic, Options};
use crate::counts::{Counts, entries_get};
use crate::error::Error;
use crate::layout::Class;
use crate::text::str_eq;
use crate::scanner::{MAX_FILE, MAX_OBJECTS};

verus! {

/// Region counters strictly increase by region start and are well formed.
pub open spec fn regions_wf(rs: Seq<(u64, Counts)>) -> bool {
    &&& forall|i: int, j: int| 0 <= i < j < rs.len() ==> (#[trigger] rs[i]).0 < (#[trigger] rs[j]).0
    &&& forall|i: int| 0 <= i < rs.len() ==> (#[trigger] rs[i]).1.wf()
}

/// The region starts that have counters.
pub open spec fn region_starts(rs: Seq<(u64, Counts)>) -> Set<u64> {
    Set::new(|s: u64| exists|i: int| 0 <= i < rs.len() && (#[trigger] rs[i]).0 == s)
}

/// The counter `name` of the region starting at `start`, zero when absent.
pub open spec fn region_get(rs: Seq<(u64, Counts)>, start: u64, name: Seq<char>) -> (u64, u64) {
    if exists|i: int| 0 <= i < rs.len() && (#[trigger] rs[i]).0 == start {
        rs[choose|i: int| 0 <= i < rs.len() && (#[trigger] rs[i]).0 == start].1.get(name)
    } else {
        (0, 0)
    }
}

proof fn lemma_region_at(rs: Seq<(u64, Counts)>, i: int, name: Seq<char>)
    requires
        regions_wf(rs),
        0 <= i < rs.len(),
    ensures
        region_get(rs, rs[i].0, name) == rs[i].1.get(name),
{
    let j = choose|j: int| 0 <= j < rs.len() && (#[trigger] rs[j]).0 == rs[i].0;
    if j != i {
        if j < i {
            assert(rs[j].0 < rs[i].0);
        } else {
            assert(rs[i].0 < rs[j].0);
        }
    }
}

proof fn lemma_region_absent(rs: Seq<(u64, Counts)>, start: u64, name: Seq<char>)
    requires
        forall|i: int| 0 <= i < rs.len() ==> (#[trigger] rs[i]).0 != start,
    ensures
        region_get(rs, start, name) == (0u64, 0u64),
{
}

/// Adds `count` and `amount` to counter `name` of the region at `start`, creating the region.
fn region_add(rs: &mut Vec<(u64, Counts)>, start: u64, name: &str, count: u64, amount: u64)
    requires
        regions_wf(old(rs)@),
        region_get(old(rs)@, start, name@).0 + count <= u64::MAX,
        region_get(old(rs)@, start, name@).1 + amount <= u64::MAX,
    ensures
        regions_wf(final(rs)@),
        region_starts(final(rs)@) == region_starts(old(rs)@).insert(start),
        forall|s: u64, n: Seq<char>| #[trigger] region_get(final(rs)@, s, n) == if s == start && n == name@ {
            ((region_get(old(rs)@, s, n).0 + count) as u64, (region_get(old(rs)@, s, n).1 + amount) as u64)
        } else {
            region_get(old(rs)@, s, n)
        },
{
    let ghost before = rs@;
    let mut i: usize = 0;
    while i < rs.len() && rs[i].0 < start
        invariant
            i <= rs@.len(),
            rs@ == before,
            forall|k: int| 0 <= k < i ==> (#[trigger] rs@[k]).0 < start,
        decreases rs@.len() - i,
    {
        i = i + 1;
    }
    let found = i < rs.len() && rs[i].0 == start;
    let mut c = if found {
        rs.remove(i).1
    } else {
        Counts::new()
    };
    proof {
        if found {
            lemma_region_at(before, i as int, name@);
        } else {
            assert forall|k: int| 0 <= k < before.len() implies (#[trigger] before[k]).0 != start by {
                if k > i {
                    assert(before[i as int].0 < before[k].0);
                }
            }
            assert forall|n: Seq<char>| #[trigger] c.get(n) == (0u64, 0u64) by {
                assert(!(exists|k: int| #[trigger] crate::counts::named_at(c.view_entries(), n, k)));
            }
        }
    }
    let ghost old_c = c;
    c.add(name, count, amount);
    rs.insert(i, (start, c));
    let ghost after = rs@;
    proof {
        if found {
            assert(after == before.update(i as int, (start, c)));
        } else {
            assert(after == before.insert(i as int, (start, c)));
        }
        assert(regions_wf(after)) by {
            assert forall|a: int, b: int| 0 <= a < b < after.len() implies (#[trigger] after[a]).0 < (#[trigger] after[b]).0 by {
                if found {
                    if a != i && b != i {
                        assert(after[a] == before[a] && after[b] == before[b]);
                    } else if a == i {
                        assert(after[b] == before[b]);
                        assert(before[a].0 < before[b].0);
                    } else {
                        assert(after[a] == before[a]);
                        assert(before[a].0 < before[b].0);
                    }
                } else {
                    if b < i {
                        assert(after[a] == before[a] && after[b] == before[b]);
                    } else if b == i {
                        assert(after[a] == before[a]);
                    } else if a < i {
                        assert(after[a] == before[a] && after[b] == before[b - 1]);
                        if i < before.len() {
                            assert(before[i as int].0 > start);
                            assert(before[i as int].0 <= before[b - 1].0);
                        }
                    } else if a == i {
                        assert(after[b] == before[b - 1]);
                        assert(before[i as int].0 > start);
                        if b - 1 > i {
                            assert(before[i as int].0 < before[b - 1].0);
                        }
                    } else {
                        assert(after[a] == before[a - 1] && after[b] == before[b - 1]);
                    }
                }
            }
            assert forall|k: int| 0 <= k < after.len() implies (#[trigger] after[k]).1.wf() by {
                if found {
                    if k != i {
                        assert(after[k] == before[k]);
                    }
                } else if k < i {
                    assert(after[k] == before[k]);
                } else if k > i {
                    assert(after[k] == before[k - 1]);
                }
            }
        }
        assert forall|s: u64, n: Seq<char>| #[trigger] region_get(after, s, n) == if s == start && n == name@ {
            ((region_get(before, s, n).0 + count) as u64, (region_get(before, s, n).1 + amount) as u64)
        } else {
            region_get(before, s, n)
        } by {
            assert(after[i as int] == (start, c));
            lemma_region_at(after, i as int, n);
            if found {
                lemma_region_at(before, i as int, n);
            } else {
                assert forall|k: int| 0 <= k < before.len() implies (#[trigger] before[k]).0 != start by {
                    if k > i {
                        assert(before[i as int].0 < before[k].0);
                    } else if k == i {
                    }
                }
                lemma_region_absent(before, start, n);
            }
            if s != start {
                if exists|k: int| 0 <= k < before.len() && (#[trigger] before[k]).0 == s {
                    let k = choose|k: int| 0 <= k < before.len() && (#[trigger] before[k]).0 == s;
                    lemma_region_at(before, k, n);
                    let k2: int = if found { k } else if k < i { k } else { k + 1 };
                    assert(after[k2] == before[k]);
                    lemma_region_at(after, k2, n);
                } else {
                    assert forall|k: int| 0 <= k < after.len() implies (#[trigger] after[k]).0 != s by {
                        if k != i {
                            if found {
                                assert(after[k] == before[k]);
                            } else if k < i {
                                assert(after[k] == before[k]);
                            } else {
                                assert(after[k] == before[k - 1]);
                            }
                        }
                    }
                }
            }
        }
        assert(region_starts(after) =~= region_starts(before).insert(start)) by {
            assert forall|s: u64| region_starts(after).contains(s) <==> region_starts(before).insert(start).contains(s) by {
                if region_starts(after).contains(s) {
                    let k = choose|k: int| 0 <= k < after.len() && (#[trigger] after[k]).0 == s;
                    if k != i {
                        let k2: int = if found || k < i { k } else { k - 1 };
                        assert(after[k] == before[k2]);
                    }
                }
                if region_starts(before).contains(s) {
                    let k = choose|k: int| 0 <= k < before.len() && (#[trigger] before[k]).0 == s;
                    if found && k == i {
                        assert(after[i as int].0 == s);
                    } else {
                        let k2: int = if found || k < i { k } else { k + 1 };
                        assert(after[k2] == before[k]);
                    }
                }
                if s == start {
                    assert(after[i as int].0 == s);
                }
            }
        }
    }
}

/// A counter after adding a count and an amount.
pub open spec fn plus(c: (u64, u64), g: (nat, nat)) -> (u64, u64) {
    ((c.0 + g.0) as u64, (c.1 + g.1) as u64)
}

pub open spec fn one_if(b: bool) -> nat {
    if b { 1 } else { 0 }
}

/// What a whole payload adds to a region counter: one array (with its bytes), one
/// classified array, and for a text-like UTF-8 anomaly one anomaly and one of its status.
pub open spec fn payload_gain(n: Seq<char>, length: u64, utf8: Seq<char>, anomaly: bool) -> (nat, nat) {
    (
        one_if(n == "arrays"@) + one_if(n == "classified"@)
            + one_if(anomaly && n == "text_like_utf8_anomalies"@) + one_if(anomaly && n == utf8),
        if n == "arrays"@ { length as nat } else { 0 },
    )
}

/// What an over-limit array adds to a region counter: one array (with its bytes), one
/// over-limit array, and with a format hint one classified and one prefix-only array.
pub open spec fn prefix_gain(n: Seq<char>, length: u64, hinted: bool) -> (nat, nat) {
    (
        one_if(n == "arrays"@) + one_if(hinted && n == "classified"@)
            + one_if(hinted && n == "prefix_only_magic"@) + one_if(n == "over_limit"@),
        if n == "arrays"@ { length as nat } else { 0 },
    )
}

/// A counter table after adding `count` and `amount` to `name`.
pub open spec fn bumped(before: Counts, after: Counts, name: Seq<char>, count: nat, amount: nat) -> bool {
    forall|n: Seq<char>| #[trigger] after.get(n) == if n == name { plus(before.get(n), (count, amount)) } else { before.get(n) }
}

/// The running totals of a byte[] census.
#[derive(Debug)]
pub struct Tally {
    /// Arrays and payload bytes per format.
    pub formats: Counts,
    /// Whole payloads and their bytes per printable-share band.
    pub bands: Counts,
    /// Whole payloads per UTF-8 status.
    pub encodings: Counts,
    /// Over-limit arrays and bytes per format hint of their first bytes.
    pub prefix_magic: Counts,
    /// Counters per region start (`arrays` carries the payload bytes).
    pub regions: Vec<(u64, Counts)>,
    pub arrays: u64,
    pub payload_bytes: u64,
    pub classified: u64,
    pub full_payloads: u64,
    pub anomalies: u64,
}


/// The tally after counting a whole payload `bytes` of an array at `offset`: its format,
/// band and UTF-8 status, the array totals, and the counters of its region.
pub open spec fn payload_recorded(before: Tally, after: Tally, offset: u64, length: u64, region_bytes: u64, bytes: Seq<u8>) -> bool {
    let c = spec_classify(bytes);
    let start = region_of(offset, region_bytes);
    &&& after.arrays == before.arrays + 1
    &&& after.payload_bytes == before.payload_bytes + length
    &&& after.classified == before.classified + 1
    &&& after.full_payloads == before.full_payloads + 1
    &&& after.anomalies == before.anomalies + one_if(c.3)
    &&& bumped(before.formats, after.formats, c.0, 1, length as nat)
    &&& bumped(before.bands, after.bands, c.1, 1, length as nat)
    &&& bumped(before.encodings, after.encodings, c.2, 1, 0)
    &&& after.prefix_magic == before.prefix_magic
    &&& region_starts(after.regions@) == region_starts(before.regions@).insert(start)
    &&& forall|s: u64, n: Seq<char>| #[trigger] region_get(after.regions@, s, n) == if s == start {
        plus(region_get(before.regions@, s, n), payload_gain(n, length, c.2, c.3))
    } else {
        region_get(before.regions@, s, n)
    }
}

/// The tally after counting an over-limit array at `offset` from its first bytes `prefix`:
/// a format hint or `unclassified-over-limit`, and never a band or an encoding.
pub open spec fn over_limit_recorded(before: Tally, after: Tally, offset: u64, length: u64, region_bytes: u64, prefix: Seq<u8>) -> bool {
    let m = spec_magic(prefix);
    let start = region_of(offset, region_bytes);
    &&& after.arrays == before.arrays + 1
    &&& after.payload_bytes == before.payload_bytes + length
    &&& after.classified == before.classified + one_if(m is Some)
    &&& after.full_payloads == before.full_payloads
    &&& after.anomalies == before.anomalies
    &&& bumped(before.formats, after.formats,
        match m { Some(k) => k, None => "unclassified-over-limit"@ }, 1, length as nat)
    &&& (match m {
        Some(k) => bumped(before.prefix_magic, after.prefix_magic, k, 1, length as nat),
        None => after.prefix_magic == before.prefix_magic,
    })
    &&& after.bands == before.bands
    &&& after.encodings == before.encodings
    &&& region_starts(after.regions@) == region_starts(before.regions@).insert(start)
    &&& forall|s: u64, n: Seq<char>| #[trigger] region_get(after.regions@, s, n) == if s == start {
        plus(region_get(before.regions@, s, n), prefix_gain(n, length, m is Some))
    } else {
        region_get(before.regions@, s, n)
    }
}

impl Tally {
    pub open spec fn wf(&self) -> bool {
        &&& self.formats.wf() && self.bands.wf() && self.encodings.wf() && self.prefix_magic.wf()
        &&& self.formats.positive()
        &&& regions_wf(self.regions@)
        &&& self.arrays <= MAX_OBJECTS
        &&& self.payload_bytes <= self.arrays * MAX_FILE
        &&& self.classified <= self.arrays && self.full_payloads <= self.arrays && self.anomalies <= self.arrays
        &&& forall|n: Seq<char>| #[trigger] self.formats.get(n).0 <= self.arrays && self.formats.get(n).1 <= self.payload_bytes
        &&& forall|n: Seq<char>| #[trigger] self.bands.get(n).0 <= self.arrays && self.bands.get(n).1 <= self.payload_bytes
        &&& forall|n: Seq<char>| #[trigger] self.encodings.get(n).0 <= self.arrays && self.encodings.get(n).1 <= self.payload_bytes
        &&& forall|n: Seq<char>| #[trigger] self.prefix_magic.get(n).0 <= self.arrays && self.prefix_magic.get(n).1 <= self.payload_bytes
        &&& forall|s: u64, n: Seq<char>| #[trigger] region_get(self.regions@, s, n).0 <= 4 * self.arrays
            && region_get(self.regions@, s, n).1 <= self.payload_bytes
        // Every counted array sits in exactly one format bucket, with all its bytes.
        &&& self.formats.total() == self.arrays
        &&& self.formats.amount_total() == self.payload_bytes
        // Every whole payload sits in exactly one band and one UTF-8 status.
        &&& self.bands.total() == self.full_payloads
        &&& self.encodings.total() == self.full_payloads
        // A classified array is a whole payload or an over-limit one with a format hint.
        &&& self.prefix_magic.total() + self.full_payloads == self.classified
    }

    /// An empty tally.
    pub fn new() -> (t: Tally)
        ensures
            t.wf(),
            t.arrays == 0 && t.payload_bytes == 0 && t.classified == 0 && t.full_payloads == 0 && t.anomalies == 0,
            t.regions@.len() == 0,
            t.formats.view_entries().len() == 0 && t.bands.view_entries().len() == 0,
            t.encodings.view_entries().len() == 0 && t.prefix_magic.view_entries().len() == 0,
    {
        let t = Tally {
            formats: Counts::new(),
            bands: Counts::new(),
            encodings: Counts::new(),
            prefix_magic: Counts::new(),
            regions: Vec::new(),
            arrays: 0,
            payload_bytes: 0,
            classified: 0,
            full_payloads: 0,
            anomalies: 0,
        };
        assert forall|s: u64, n: Seq<char>| #[trigger] region_get(t.regions@, s, n).0 <= 4 * t.arrays
            && region_get(t.regions@, s, n).1 <= t.payload_bytes by {
            lemma_region_absent(t.regions@, s, n);
        }
        t
    }

    /// Counts one byte array whose whole payload `bytes` (of `length` bytes) was classified:
    /// its format, band and UTF-8 status, and the counters of its region.
    #[verifier::spinoff_prover]
    pub fn record_payload(&mut self, offset: u64, length: u64, region_bytes: u64, bytes: &[u8])
        requires
            old(self).wf(),
            old(self).arrays < MAX_OBJECTS,
            bytes@.len() == length,
            length <= MAX_FILE,
            region_bytes > 0,
        ensures
            final(self).wf(),
            payload_recorded(*old(self), *final(self), offset, length, region_bytes, bytes@),
    {
        let c = classify(bytes);
        let start = region_start(offset, region_bytes);
        let ghost f0 = self.formats;
        let ghost b0 = self.bands;
        let ghost e0 = self.encodings;
        let ghost r0 = self.regions@;
        proof {
            assert(self.formats.get(c.kind@).0 <= self.arrays);
            assert(self.bands.get(c.band@).0 <= self.arrays);
            assert(self.encodings.get(c.utf8@).0 <= self.arrays);
            assert forall|n: Seq<char>| #[trigger] region_get(r0, start, n).0 + 4 <= u64::MAX
                && region_get(r0, start, n).1 + length <= u64::MAX by {
                assert(region_get(self.regions@, start, n).0 <= 4 * self.arrays);
            }
        }
        self.formats.add(c.kind, 1, length);
        self.bands.add(c.band, 1, length);
        self.encodings.add(c.utf8, 1, 0);
        payload_regions(&mut self.regions, start, length, c.utf8, c.text_like_anomaly);
        if c.text_like_anomaly {
            self.anomalies = self.anomalies + 1;
        }
        self.arrays = self.arrays + 1;
        self.payload_bytes = self.payload_bytes + length;
        self.classified = self.classified + 1;
        self.full_payloads = self.full_payloads + 1;
        proof {
            assert forall|n: Seq<char>| #[trigger] self.formats.get(n).0 <= self.arrays && self.formats.get(n).1 <= self.payload_bytes by {
                assert(f0.get(n).0 <= self.arrays - 1);
            }
            assert forall|n: Seq<char>| #[trigger] self.bands.get(n).0 <= self.arrays && self.bands.get(n).1 <= self.payload_bytes by {
                assert(b0.get(n).0 <= self.arrays - 1);
            }
            assert forall|n: Seq<char>| #[trigger] self.encodings.get(n).0 <= self.arrays && self.encodings.get(n).1 <= self.payload_bytes by {
                assert(e0.get(n).0 <= self.arrays - 1);
            }
            assert forall|n: Seq<char>| #[trigger] self.prefix_magic.get(n).0 <= self.arrays && self.prefix_magic.get(n).1 <= self.payload_bytes by {
            }
            assert forall|s: u64, n: Seq<char>| #[trigger] region_get(self.regions@, s, n).0 <= 4 * self.arrays
                && region_get(self.regions@, s, n).1 <= self.payload_bytes by {
                assert(region_get(r0, s, n).0 <= 4 * (self.arrays - 1));
                assert(region_get(r0, s, n).1 <= self.payload_bytes - length);
            }
            assert(self.payload_bytes <= self.arrays * MAX_FILE);
            assert(self.wf());
        }
    }
}

impl Tally {
    /// Counts one byte array longer than the payload bound from at most its first 32
    /// bytes `prefix`: a format hint if one is found, else unclassified; never an encoding.
    #[verifier::spinoff_prover]
    pub fn record_over_limit(&mut self, offset: u64, length: u64, region_bytes: u64, prefix: &[u8])
        requires
            old(self).wf(),
            old(self).arrays < MAX_OBJECTS,
            length <= MAX_FILE,
            region_bytes > 0,
        ensures
            final(self).wf(),
            over_limit_recorded(*old(self), *final(self), offset, length, region_bytes, prefix@),
    {
        let m = magic(prefix);
        let start = region_start(offset, region_bytes);
        let ghost f0 = self.formats;
        let ghost p0 = self.prefix_magic;
        let ghost b0 = self.bands;
        let ghost e0 = self.encodings;
        let ghost r0 = self.regions@;
        proof {
            assert forall|n: Seq<char>| #[trigger] region_get(r0, start, n).0 + 4 <= u64::MAX
                && region_get(r0, start, n).1 + length <= u64::MAX by {
                assert(region_get(self.regions@, start, n).0 <= 4 * self.arrays);
            }
        }
        match m {
            Some(k) => {
                proof {
                    assert(self.formats.get(k@).0 <= self.arrays);
                    assert(self.prefix_magic.get(k@).0 <= self.arrays);
                }
                self.formats.add(k, 1, length);
                self.prefix_magic.add(k, 1, length);
                self.classified = self.classified + 1;
            },
            None => {
                proof {
                    assert(self.formats.get("unclassified-over-limit"@).0 <= self.arrays);
                }
                self.formats.add("unclassified-over-limit", 1, length);
            },
        }
        prefix_regions(&mut self.regions, start, length, m.is_some());
        self.arrays = self.arrays + 1;
        self.payload_bytes = self.payload_bytes + length;
        proof {
            assert forall|n: Seq<char>| #[trigger] self.formats.get(n).0 <= self.arrays && self.formats.get(n).1 <= self.payload_bytes by {
                assert(f0.get(n).0 <= self.arrays - 1);
            }
            assert forall|n: Seq<char>| #[trigger] self.prefix_magic.get(n).0 <= self.arrays && self.prefix_magic.get(n).1 <= self.payload_bytes by {
                assert(p0.get(n).0 <= self.arrays - 1);
            }
            assert forall|n: Seq<char>| #[trigger] self.bands.get(n).0 <= self.arrays && self.bands.get(n).1 <= self.payload_bytes by {
                assert(b0.get(n).0 <= self.arrays - 1);
            }
            assert forall|n: Seq<char>| #[trigger] self.encodings.get(n).0 <= self.arrays && self.encodings.get(n).1 <= self.payload_bytes by {
                assert(e0.get(n).0 <= self.arrays - 1);
            }
            assert forall|s: u64, n: Seq<char>| #[trigger] region_get(self.regions@, s, n).0 <= 4 * self.arrays
                && region_get(self.regions@, s, n).1 <= self.payload_bytes by {
                assert(region_get(r0, s, n).0 <= 4 * (self.arrays - 1));
                assert(region_get(r0, s, n).1 <= self.payload_bytes - length);
            }
            assert(self.payload_bytes <= self.arrays * MAX_FILE);
            assert(self.wf());
        }
    }
}

/// How much of an indexed byte array the census reads.
#[derive(Debug, Clone, Copy, PartialEq, Eq, Structural)]
pub enum CensusRead {
    /// The whole payload, of this many bytes, is classified.
    Whole(u64),
    /// The payload is over the bound: only this many first bytes give a format hint.
    Prefix(u64),
}

/// The census read of an array of `length` bytes under a payload bound: the whole payload
/// within the bound, else at most its first 32 bytes.
pub open spec fn spec_census_read(length: u64, max_bytes: u64) -> CensusRead {
    if length > max_bytes {
        CensusRead::Prefix(if length < 32 { length } else { 32 })
    } else {
        CensusRead::Whole(length)
    }
}

/// The number of payload bytes a census read takes.
pub open spec fn read_len(r: CensusRead) -> u64 {
    match r {
        CensusRead::Whole(n) => n,
        CensusRead::Prefix(n) => n,
    }
}

/// What the census reads of an array of `length` bytes.
pub fn census_read(length: u64, options: &Options) -> (r: CensusRead)
    ensures
        r == spec_census_read(length, options.max_bytes),
{
    if length > options.max_bytes {
        CensusRead::Prefix(if length < 32 { length } else { 32 })
    } else {
        CensusRead::Whole(length)
    }
}

impl Tally {
    /// Counts one indexed byte array of `length` bytes at `offset` from the bytes that
    /// [`census_read`] names: a whole payload within `options.max_bytes` is classified,
    /// a longer one only gets a format hint from its first bytes.
    pub fn record(&mut self, offset: u64, length: u64, options: &Options, bytes: &[u8])
        requires
            old(self).wf(),
            old(self).arrays < MAX_OBJECTS,
            length <= MAX_FILE,
            options.region_bytes > 0,
            bytes@.len() == read_len(spec_census_read(length, options.max_bytes)),
        ensures
            final(self).wf(),
            match spec_census_read(length, options.max_bytes) {
                CensusRead::Whole(_) => payload_recorded(*old(self), *final(self), offset, length, options.region_bytes, bytes@),
                CensusRead::Prefix(_) => over_limit_recorded(*old(self), *final(self), offset, length, options.region_bytes, bytes@),
            },
    {
        match census_read(length, options) {
            CensusRead::Whole(_) => self.record_payload(offset, length, options.region_bytes, bytes),
            CensusRead::Prefix(_) => self.record_over_limit(offset, length, options.region_bytes, bytes),
        }
    }
}

/// The region counters after an over-limit array (see [`prefix_gain`]).
fn prefix_regions(rs: &mut Vec<(u64, Counts)>, start: u64, length: u64, hinted: bool)
    requires
        regions_wf(old(rs)@),
        forall|n: Seq<char>| #[trigger] region_get(old(rs)@, start, n).0 + 4 <= u64::MAX
            && region_get(old(rs)@, start, n).1 + length <= u64::MAX,
    ensures
        regions_wf(final(rs)@),
        region_starts(final(rs)@) == region_starts(old(rs)@).insert(start),
        forall|s: u64, n: Seq<char>| #[trigger] region_get(final(rs)@, s, n) == if s == start {
            plus(region_get(old(rs)@, s, n), prefix_gain(n, length, hinted))
        } else {
            region_get(old(rs)@, s, n)
        },
{
    let ghost r0 = rs@;
    proof {
        assert(region_get(r0, start, "arrays"@).0 + 4 <= u64::MAX);
    }
    region_add(rs, start, "arrays", 1, length);
    let ghost r1 = rs@;
    if hinted {
        proof {
            assert(region_get(r0, start, "classified"@).0 + 4 <= u64::MAX);
        }
        region_add(rs, start, "classified", 1, 0);
        let ghost r2 = rs@;
        proof {
            assert(region_get(r0, start, "prefix_only_magic"@).0 + 4 <= u64::MAX);
        }
        region_add(rs, start, "prefix_only_magic", 1, 0);
        let ghost r3 = rs@;
        proof {
            assert(region_get(r0, start, "over_limit"@).0 + 4 <= u64::MAX);
        }
        region_add(rs, start, "over_limit", 1, 0);
        proof {
            assert forall|s: u64, n: Seq<char>| #[trigger] region_get(rs@, s, n) == if s == start {
                plus(region_get(r0, s, n), prefix_gain(n, length, hinted))
            } else {
                region_get(r0, s, n)
            } by {
                assert(region_get(r3, s, n) == region_get(r3, s, n));
                assert(region_get(r2, s, n) == region_get(r2, s, n));
                assert(region_get(r1, s, n) == region_get(r1, s, n));
            }
        }
    } else {
        proof {
            assert(region_get(r0, start, "over_limit"@).0 + 4 <= u64::MAX);
        }
        region_add(rs, start, "over_limit", 1, 0);
        proof {
            assert forall|s: u64, n: Seq<char>| #[trigger] region_get(rs@, s, n) == if s == start {
                plus(region_get(r0, s, n), prefix_gain(n, length, hinted))
            } else {
                region_get(r0, s, n)
            } by {
                assert(region_get(r1, s, n) == region_get(r1, s, n));
            }
        }
    }
}

/// The region counters after a whole payload (see [`payload_gain`]).
fn payload_regions(rs: &mut Vec<(u64, Counts)>, start: u64, length: u64, utf8: &str, anomaly: bool)
    requires
        regions_wf(old(rs)@),
        forall|n: Seq<char>| #[trigger] region_get(old(rs)@, start, n).0 + 4 <= u64::MAX
            && region_get(old(rs)@, start, n).1 + length <= u64::MAX,
    ensures
        regions_wf(final(rs)@),
        region_starts(final(rs)@) == region_starts(old(rs)@).insert(start),
        forall|s: u64, n: Seq<char>| #[trigger] region_get(final(rs)@, s, n) == if s == start {
            plus(region_get(old(rs)@, s, n), payload_gain(n, length, utf8@, anomaly))
        } else {
            region_get(old(rs)@, s, n)
        },
{
    let ghost r0 = rs@;
    proof {
        assert(region_get(r0, start, "arrays"@).0 + 4 <= u64::MAX);
    }
    region_add(rs, start, "arrays", 1, length);
    let ghost r1 = rs@;
    proof {
        assert(region_get(r0, start, "classified"@).0 + 4 <= u64::MAX);
    }
    region_add(rs, start, "classified", 1, 0);
    let ghost r2 = rs@;
    if anomaly {
        proof {
            assert(region_get(r0, start, "text_like_utf8_anomalies"@).0 + 4 <= u64::MAX);
        }
        region_add(rs, start, "text_like_utf8_anomalies", 1, 0);
        let ghost r3 = rs@;
        proof {
            assert(region_get(r0, start, utf8@).0 + 4 <= u64::MAX);
        }
        region_add(rs, start, utf8, 1, 0);
        proof {
            assert forall|s: u64, n: Seq<char>| #[trigger] region_get(rs@, s, n) == if s == start {
                plus(region_get(r0, s, n), payload_gain(n, length, utf8@, anomaly))
            } else {
                region_get(r0, s, n)
            } by {
                assert(region_get(r3, s, n) == region_get(r3, s, n));
                assert(region_get(r2, s, n) == region_get(r2, s, n));
                assert(region_get(r1, s, n) == region_get(r1, s, n));
            }
        }
    } else {
        proof {
            assert forall|s: u64, n: Seq<char>| #[trigger] region_get(rs@, s, n) == if s == start {
                plus(region_get(r0, s, n), payload_gain(n, length, utf8@, anomaly))
            } else {
                region_get(r0, s, n)
            } by {
                assert(region_get(r1, s, n) == region_get(r1, s, n));
            }
        }
    }
}

/// The region that an array at `offset` counts in: its offset rounded down to a multiple
/// of the region size.
pub open spec fn region_of(offset: u64, region_bytes: u64) -> u64 {
    (offset / region_bytes * region_bytes) as u64
}

fn region_start(offset: u64, region_bytes: u64) -> (r: u64)
    requires
        region_bytes > 0,
    ensures
        r == region_of(offset, region_bytes),
{
    let q = offset / region_bytes;
    assert(q * region_bytes <= offset) by (nonlinear_arith)
        requires
            q == offset / region_bytes,
            region_bytes > 0,
    ;
    q * region_bytes
}

/// Refuses a `[B` class that is not an array of single bytes.
pub fn check_byte_class(c: &Class) -> (r: Result<(), Error>)
    ensures
        r is Ok <==> (c.kind@ == "array"@ && c.element@ == "byte"@ && c.scale == 1),
        r is Err ==> r == Err::<(), Error>(Error::NotByteArrayLayout),
{
    if str_eq(c.kind.as_str(), "array") && str_eq(c.element.as_str(), "byte") && c.scale == 1 {
        Ok(())
    } else {
        Err(Error::NotByteArrayLayout)
    }
}

} // verus!
