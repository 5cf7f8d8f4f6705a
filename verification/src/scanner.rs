//! The single-pass header scan over a capture: header-shape observations, class-identity
//! matches, object bounds and the capture digest.
use vstd::prelude::*;
use crate::bytes::{le_value, mark_shape_ok, spec_aligned, aligned, word_at};
use crate::error::{Error, ErrorView, rview};
use crate::layout::{Layout, Object, Mapping, CHUNK};
use crate::scan::{ClassInfo, spec_find, find_class, table_sorted, table_describes, class_table, klass_at, lemma_find_at, spec_info, has_entry};
use crate::layout::{LayoutView, ClassView, validate_layout, spec_validate_layout, klass_width, length_offset, spec_klass_width, spec_length_offset};
use crate::profiles::first_unknown;
use crate::text::str_eq;
use crate::spacing::{Collector, CollectorView, Kind, spec_collect_observe};
use crate::digest::{Hasher, absorbed, sha256_new, sha256_update, sha256_finish, sha256, hex_bytes, spec_hex_bytes};
use crate::counts::Counts;
use crate::index::{Index, limitations, limitation_texts};
use crate::spacing::{SpacingDetection, stats_describe, detection_describes, GroupStats};

verus! {

/// Captures may hold at most 64 GiB.
pub const MAX_FILE: u64 = 68719476736;
/// An in-memory index holds at most two million objects.
pub const MAX_OBJECTS: usize = 2000000;
/// Each window read overlaps the next chunk by this many bytes.
pub const OVERLAP: usize = 24;

/// The little-endian value of `len` bytes at `at`.
pub open spec fn word_of(w: Seq<u8>, at: int, len: int) -> nat {
    le_value(w.subrange(at, at + len))
}

/// The collector after the header-shape observations of the candidate at `pos`: with a
/// plausible mark word, an 8-byte class word in `[2^32, 2^48)` and 8-aligned votes wide when
/// at least `2^40`; the low 32 bits in `[0x1000, 0x4000_0000)` vote narrow when the high half
/// is below `2^15`.
pub open spec fn spec_observe_at(c: CollectorView, w: Seq<u8>, pos: int, offset: u64) -> CollectorView {
    let mark = word_of(w, pos, 8);
    let full = word_of(w, pos + 8, 8);
    let low = full % 0x1_0000_0000;
    if !mark_shape_ok(mark) {
        c
    } else {
        let c1 = if 0x1_0000_0000 <= full < 0x1_0000_0000_0000 && full % 8 == 0 {
            spec_collect_observe(c, Kind::Wide, full as u64, offset, full >= 0x100_0000_0000)
        } else {
            c
        };
        if 0x1000 <= low < 0x4000_0000 {
            spec_collect_observe(c1, Kind::Narrow, low as u64, offset, full / 0x1_0000_0000 < 0x8000)
        } else {
            c1
        }
    }
}

/// An object's size from its class and array length: the aligned array extent, refused when
/// the length exceeds `i32::MAX` or the arithmetic overflows; an instance's fixed size.
pub open spec fn spec_object_size(c: ClassInfo, length: Option<u64>) -> Option<u64> {
    match length {
        Some(len) => if len <= 0x7fff_ffff && len * c.scale + c.base <= u64::MAX {
            spec_aligned((len * c.scale + c.base) as u64)
        } else {
            None
        },
        None => Some(c.size),
    }
}

/// What a header candidate amounts to.
pub enum Outcome {
    /// No selected class has this identity.
    Skip,
    /// A selected class matched but the mark word, length or bounds are unsupported.
    Reject,
    /// An object candidate.
    Found(Object),
}

/// The candidate at `pos` of a window of `n` bytes read at the capture offset `offset - pos`.
pub open spec fn spec_outcome(t: Seq<ClassInfo>, kw: int, lo: int, w: Seq<u8>, n: int, pos: int, offset: u64, size: u64) -> Outcome {
    let klass = word_of(w, pos + 8, kw) as u64;
    match spec_find(t, klass) {
        None => Outcome::Skip,
        Some(c) => if !c.selected {
            Outcome::Skip
        } else if !mark_shape_ok(word_of(w, pos, 8)) || (c.array && pos + lo + 4 > n) {
            Outcome::Reject
        } else {
            let length = if c.array { Some(word_of(w, pos + lo, 4) as u64) } else { None };
            match spec_object_size(c, length) {
                Some(sz) => if offset + sz <= size {
                    Outcome::Found(Object { offset, size: sz, class_id: c.id, length })
                } else {
                    Outcome::Reject
                },
                None => Outcome::Reject,
            }
        },
    }
}

/// The mathematical state of a scan.
pub struct ScanView {
    pub collector: CollectorView,
    /// Every object candidate found so far, in offset order.
    pub found: Seq<Object>,
    pub rejected: nat,
    pub zeros: nat,
    /// The capture bytes hashed so far.
    pub hashed: Seq<u8>,
    /// Capture offset of the next window.
    pub base: u64,
}

/// The scan state after the candidate at `pos`.
pub open spec fn spec_step(v: ScanView, t: Seq<ClassInfo>, kw: int, lo: int, w: Seq<u8>, n: int, pos: int, size: u64) -> ScanView {
    let offset = (v.base + pos) as u64;
    let c = spec_observe_at(v.collector, w, pos, offset);
    match spec_outcome(t, kw, lo, w, n, pos, offset, size) {
        Outcome::Skip => ScanView { collector: c, ..v },
        Outcome::Reject => ScanView { collector: c, rejected: v.rejected + 1, ..v },
        Outcome::Found(o) => ScanView { collector: c, found: v.found.push(o), ..v },
    }
}

/// The scan state after every candidate from `pos` on: 8-aligned positions below `main`
/// that leave a full 16-byte header inside the window.
pub open spec fn spec_scan_from(v: ScanView, t: Seq<ClassInfo>, kw: int, lo: int, w: Seq<u8>, n: int, main: int, pos: int, size: u64) -> ScanView
    decreases main + 8 - pos,
{
    if pos < main && pos + 16 <= n {
        spec_scan_from(spec_step(v, t, kw, lo, w, n, pos, size), t, kw, lo, w, n, main, pos + 8, size)
    } else {
        v
    }
}

/// Zero bytes in a sequence.
pub open spec fn zero_count(b: Seq<u8>) -> nat
    decreases b.len(),
{
    if b.len() == 0 {
        0
    } else {
        zero_count(b.drop_last()) + if b.last() == 0 { 1nat } else { 0nat }
    }
}

/// Objects of class `id` among `objects`.
pub open spec fn class_count(objects: Seq<Object>, id: int) -> nat
    decreases objects.len(),
{
    if objects.len() == 0 {
        0
    } else {
        class_count(objects.drop_last(), id) + if objects.last().class_id == id { 1nat } else { 0nat }
    }
}

/// The length of the window read at `base`: the next chunk and the overlap, within the capture.
pub open spec fn spec_window_len(base: u64, size: u64) -> int {
    if size - base < CHUNK + OVERLAP { size - base } else { CHUNK + OVERLAP }
}

/// The part of a window of `n` bytes that belongs to this chunk.
pub open spec fn spec_main(n: int) -> int {
    if n < CHUNK { n } else { CHUNK as int }
}

/// The scan state after a whole window.
pub open spec fn spec_window(v: ScanView, t: Seq<ClassInfo>, kw: int, lo: int, w: Seq<u8>, size: u64) -> ScanView {
    let n = w.len() as int;
    let main = spec_main(n);
    let v1 = spec_scan_from(v, t, kw, lo, w, n, main, 0, size);
    ScanView {
        zeros: v1.zeros + zero_count(w.take(main)),
        hashed: v1.hashed + w.take(main),
        base: (v.base + main) as u64,
        ..v1
    }
}



/// Every group's last hit lies below `bound`.
pub open spec fn lasts_below(c: CollectorView, bound: int) -> bool {
    forall|i: int| 0 <= i < c.groups.len() ==> (#[trigger] c.groups[i]).2.last < bound
}

proof fn lemma_scan_from_grows(v: ScanView, t: Seq<ClassInfo>, kw: int, lo: int, w: Seq<u8>, n: int, main: int, pos: int, size: u64)
    ensures
        spec_scan_from(v, t, kw, lo, w, n, main, pos, size).found.len() >= v.found.len(),
    decreases main + 8 - pos,
{
    if pos < main && pos + 16 <= n {
        lemma_scan_from_grows(spec_step(v, t, kw, lo, w, n, pos, size), t, kw, lo, w, n, main, pos + 8, size);
    }
}

proof fn lemma_class_count_push(objects: Seq<Object>, o: Object, id: int)
    ensures
        class_count(objects.push(o), id) == class_count(objects, id) + if o.class_id == id { 1nat } else { 0nat },
{
    assert(objects.push(o).drop_last() =~= objects);
}

proof fn lemma_class_count_bound(objects: Seq<Object>, id: int)
    ensures
        class_count(objects, id) <= objects.len(),
    decreases objects.len(),
{
    if objects.len() > 0 {
        lemma_class_count_bound(objects.drop_last(), id);
    }
}

/// A capture scan in progress. The caller reads each window at [`Scanner::base`] and hands
/// it to [`Scanner::feed`] until [`Scanner::done`].
pub struct Scanner {
    size: u64,
    kw: usize,
    lo: usize,
    table: Vec<ClassInfo>,
    streaming: bool,
    collector: Collector,
    hasher: Hasher,
    objects: Vec<Object>,
    class_counts: Vec<u64>,
    rejected: u64,
    zeros: u64,
    base: u64,
    found: Ghost<Seq<Object>>,
    layout: Option<Layout>,
    only: Vec<String>,
}

impl View for Scanner {
    type V = ScanView;

    closed spec fn view(&self) -> ScanView {
        ScanView {
            collector: self.collector@,
            found: self.found@,
            rejected: self.rejected as nat,
            zeros: self.zeros as nat,
            hashed: absorbed(self.hasher),
            base: self.base,
        }
    }
}

impl Scanner {
    pub closed spec fn table(&self) -> Seq<ClassInfo> {
        self.table@
    }

    pub closed spec fn class_word_width(&self) -> int {
        self.kw as int
    }

    pub closed spec fn length_at(&self) -> int {
        self.lo as int
    }

    pub closed spec fn capture_size(&self) -> u64 {
        self.size
    }

    pub closed spec fn streaming(&self) -> bool {
        self.streaming
    }

    /// The layout the scan was started with.
    pub closed spec fn held_layout(&self) -> Option<Layout> {
        self.layout
    }

    /// The class selection the scan was started with.
    pub closed spec fn selection(&self) -> Seq<Seq<char>> {
        self.only@.map_values(|s: String| s@)
    }

    /// The objects kept for an in-memory index.
    pub closed spec fn stored(&self) -> Seq<Object> {
        self.objects@
    }

    /// Candidates found per class index.
    pub closed spec fn counts(&self) -> Seq<u64> {
        self.class_counts@
    }

    /// The structural invariant, independent of how far the scan has come.
    pub closed spec fn core_ok(&self) -> bool {
        &&& self.collector.wf()
        &&& self.zeros <= self.base
        &&& absorbed(self.hasher).len() == self.base
        &&& self.base <= self.size <= MAX_FILE
        &&& table_sorted(self.table@)
        &&& forall|j: int| 0 <= j < self.table@.len() ==> (#[trigger] self.table@[j]).id < self.class_counts@.len()
        &&& forall|i: int| 0 <= i < self.class_counts@.len() ==> #[trigger] self.class_counts@[i] == class_count(self.found@, i)
        &&& self.class_counts@.len() == match self.layout { Some(l) => l.classes@.len(), None => 0 }
        &&& self.streaming ==> self.objects@.len() == 0
        &&& !self.streaming ==> self.objects@ == self.found@ && self.found@.len() <= MAX_OBJECTS
        &&& (self.kw == 4 || self.kw == 8)
        &&& (self.lo == 12 || self.lo == 16)
    }

    /// The scanner's invariant: the structure, and counters bounded by the scanned prefix.
    pub closed spec fn wf(&self) -> bool {
        &&& self.core_ok()
        &&& lasts_below(self.collector@, self.base as int)
        &&& self.collector.observations() <= 2 * self.base + 16
        &&& self.rejected <= 2 * self.base + 16
        &&& self.found@.len() <= 2 * self.base + 16
    }

    /// The capture offset at which the next window starts.
    pub fn base(&self) -> (b: u64)
        ensures
            b == self@.base,
    {
        self.base
    }

    /// The number of bytes the next window must hold.
    pub fn window_len(&self) -> (n: usize)
        requires
            self.wf(),
            self@.base < self.capture_size(),
        ensures
            n == spec_window_len(self@.base, self.capture_size()),
    {
        let rest = self.size - self.base;
        if rest < (CHUNK + OVERLAP) as u64 {
            rest as usize
        } else {
            CHUNK + OVERLAP
        }
    }

    /// Whether the whole capture has been scanned.
    pub fn done(&self) -> (d: bool)
        ensures
            d == (self@.base >= self.capture_size()),
    {
        self.base >= self.size
    }

    /// Handles the header candidate at `pos`; `Err` when an in-memory index would exceed
    /// its object limit.
    fn visit(&mut self, w: &[u8], pos: usize) -> (r: Result<Option<(Object, u64)>, Error>)
        requires
            old(self).core_ok(),
            pos + 16 <= w@.len(),
            pos < CHUNK,
            old(self)@.base + pos < old(self).capture_size(),
            lasts_below(old(self)@.collector, old(self)@.base + pos),
            old(self).collector.observations() + 2 <= u64::MAX,
            old(self)@.rejected < u64::MAX,
            old(self)@.found.len() < u64::MAX,
        ensures
            r is Ok ==> final(self)@ == spec_step(old(self)@, old(self).table(), old(self).class_word_width(), old(self).length_at(),
                w@, w@.len() as int, pos as int, old(self).capture_size()),
            r is Err ==> !old(self).streaming() && old(self)@.found.len() == MAX_OBJECTS
                && spec_step(old(self)@, old(self).table(), old(self).class_word_width(), old(self).length_at(),
                w@, w@.len() as int, pos as int, old(self).capture_size()).found.len() > MAX_OBJECTS,
            r matches Err(e) ==> e == Error::ObjectLimit,
            r matches Ok(Some(p)) ==> final(self)@.found == old(self)@.found.push(p.0) && p.1 == word_of(w@, pos as int, 8),
            r matches Ok(None) ==> final(self)@.found == old(self)@.found,
            final(self).table() == old(self).table(),
            final(self).class_word_width() == old(self).class_word_width(),
            final(self).length_at() == old(self).length_at(),
            final(self).capture_size() == old(self).capture_size(),
            final(self).streaming() == old(self).streaming(),
            final(self).held_layout() == old(self).held_layout(),
            final(self).selection() == old(self).selection(),
            final(self)@.base == old(self)@.base,
            final(self)@.hashed == old(self)@.hashed,
            final(self)@.zeros == old(self)@.zeros,
            r is Ok ==> {
                &&& final(self).core_ok()
                &&& lasts_below(final(self)@.collector, old(self)@.base + pos + 1)
                &&& final(self).collector.observations() <= old(self).collector.observations() + 2
                &&& final(self)@.rejected <= old(self)@.rejected + 1
                &&& final(self)@.found.len() <= old(self)@.found.len() + 1
            },
    {
        let n = w.len();
        let offset = self.base + pos as u64;
        let mark = word_at(w, pos, 8);
        let full = word_at(w, pos + 8, 8);
        let low = full & 0xffff_ffffu64;
        let high = full >> 32u64;
        assert(full & 0xffff_ffffu64 == full % 0x1_0000_0000) by (bit_vector);
        assert(full >> 32u64 == full / 0x1_0000_0000) by (bit_vector);
        let plausible = mark & 3 == 1 && mark >> 40u64 == 0;
        assert(mark & 3 == mark % 4) by (bit_vector);
        assert((mark >> 40u64 == 0) == (mark < 0x100_0000_0000)) by (bit_vector);
        assert(plausible == mark_shape_ok(word_of(w@, pos as int, 8)));
        let ghost c0 = self.collector@;
        proof {
            assert(self.collector.lasts_at_most(offset));
        }
        if plausible {
            if full >= 0x1_0000_0000u64 && full < 0x1_0000_0000_0000u64 && full % 8 == 0 {
                self.collector.observe(Kind::Wide, full, offset, full >= 0x100_0000_0000u64);
            }
            if low >= 0x1000 && low < 0x4000_0000 {
                self.collector.observe(Kind::Narrow, low, offset, high < 0x8000);
            }
        }
        assert(self.collector@ == spec_observe_at(c0, w@, pos as int, offset));
        proof {
            assert forall|i: int| 0 <= i < self.collector@.groups.len() implies (#[trigger] self.collector@.groups[i]).2.last < self.base + pos + 1 by {
                assert(self.collector.lasts_at_most(offset));
            }
        }
        let ghost target = spec_outcome(self.table@, self.kw as int, self.lo as int, w@, n as int, pos as int, offset, self.size);
        let klass = word_at(w, pos + 8, self.kw);
        let info = find_class(&self.table, klass);
        let c = match info {
            None => {
                assert(target matches Outcome::Skip);
                return Ok(None);
            },
            Some(c) => c,
        };
        if !c.selected {
            assert(target matches Outcome::Skip);
            return Ok(None);
        }
        if !plausible || (c.array && pos + self.lo + 4 > n) {
            assert(target matches Outcome::Reject);
            self.rejected = self.rejected + 1;
            return Ok(None);
        }
        let length: Option<u64> = if c.array {
            Some(word_at(w, pos + self.lo, 4))
        } else {
            None
        };
        let object_size: Option<u64> = match length {
            Some(len) => if len <= 0x7fff_ffff {
                match len.checked_mul(c.scale) {
                    Some(m) => match m.checked_add(c.base) {
                        Some(e) => aligned(e),
                        None => None,
                    },
                    None => None,
                }
            } else {
                None
            },
            None => Some(c.size),
        };
        assert(object_size == spec_object_size(c, length)) by {
            match length {
                Some(len) => {
                    if len <= 0x7fff_ffff && len * c.scale <= u64::MAX {
                        assert(len * c.scale + c.base <= u64::MAX <==> (len * c.scale) as u64 + c.base <= u64::MAX);
                    }
                    if len * c.scale > u64::MAX {
                        assert(len * c.scale + c.base > u64::MAX);
                    }
                },
                None => {},
            }
        }
        let sz = match object_size {
            None => {
                assert(target matches Outcome::Reject);
                self.rejected = self.rejected + 1;
                return Ok(None);
            },
            Some(sz) => sz,
        };
        let fits = match offset.checked_add(sz) {
            Some(end) => end <= self.size,
            None => false,
        };
        if !fits {
            assert(target matches Outcome::Reject);
            self.rejected = self.rejected + 1;
            return Ok(None);
        }
        let object = Object { offset, size: sz, class_id: c.id, length };
        assert(target == Outcome::Found(object));
        proof {
            lemma_find_entry(self.table@, klass);
        }
        if !self.streaming && self.objects.len() >= MAX_OBJECTS {
            return Err(Error::ObjectLimit);
        }
        let ghost old_found = self.found@;
        self.found = Ghost(self.found@.push(object));
        if !self.streaming {
            self.objects.push(object);
        }
        proof {
            lemma_class_count_bound(old_found, c.id as int);
            assert(self.class_counts@[c.id as int] == class_count(old_found, c.id as int));
        }
        let old_count = self.class_counts[c.id];
        self.class_counts.set(c.id, old_count + 1);
        proof {
            assert forall|i: int| 0 <= i < self.class_counts@.len() implies #[trigger] self.class_counts@[i] == class_count(self.found@, i) by {
                lemma_class_count_push(old_found, object, i);
            }
        }
        Ok(Some((object, mark)))
    }
}

proof fn lemma_out_push(out: Seq<(Object, u64)>, p: (Object, u64), found: Seq<Object>, from: int)
    requires
        0 <= from <= found.len(),
        out.map_values(|q: (Object, u64)| q.0) == found.skip(from),
    ensures
        out.push(p).map_values(|q: (Object, u64)| q.0) == found.push(p.0).skip(from),
{
    assert(out.push(p).map_values(|q: (Object, u64)| q.0) =~= out.map_values(|q: (Object, u64)| q.0).push(p.0));
    assert(found.push(p.0).skip(from) =~= found.skip(from).push(p.0));
}

proof fn lemma_find_entry(t: Seq<ClassInfo>, k: u64)
    requires
        spec_find(t, k) is Some,
    ensures
        exists|j: int| 0 <= j < t.len() && t[j] == spec_find(t, k)->0,
{
    let j = choose|j: int| #[trigger] crate::scan::klass_at(t, k, j);
    assert(t[j] == spec_find(t, k)->0);
}


impl Scanner {
    /// Scans one window read at [`Scanner::base`]: every 8-aligned header candidate of the
    /// window's chunk, then the chunk's digest and zero bytes. Returns the object candidates
    /// found, each with its mark word; refuses when an in-memory index would exceed its limit.
    #[verifier::rlimit(100)]
    #[verifier::spinoff_prover]
    pub fn feed(&mut self, w: &[u8]) -> (r: Result<Vec<(Object, u64)>, Error>)
        requires
            old(self).wf(),
            old(self)@.base < old(self).capture_size(),
            w@.len() == spec_window_len(old(self)@.base, old(self).capture_size()),
        ensures
            final(self).table() == old(self).table(),
            final(self).class_word_width() == old(self).class_word_width(),
            final(self).length_at() == old(self).length_at(),
            final(self).capture_size() == old(self).capture_size(),
            final(self).streaming() == old(self).streaming(),
            final(self).held_layout() == old(self).held_layout(),
            final(self).selection() == old(self).selection(),
            r is Ok <==> (old(self).streaming() || spec_window(old(self)@, old(self).table(), old(self).class_word_width(),
                old(self).length_at(), w@, old(self).capture_size()).found.len() <= MAX_OBJECTS),
            r matches Err(e) ==> e == Error::ObjectLimit,
            r is Ok ==> final(self).wf() && final(self)@ == spec_window(old(self)@, old(self).table(), old(self).class_word_width(),
                old(self).length_at(), w@, old(self).capture_size()),
            r matches Ok(v) ==> v@.map_values(|p: (Object, u64)| p.0) == final(self)@.found.skip(old(self)@.found.len() as int),
            r matches Ok(v) ==> forall|i: int| 0 <= i < v@.len() ==> (#[trigger] v@[i]).1 == word_of(w@, v@[i].0.offset - old(self)@.base, 8),
    {
        let n = w.len();
        let main: usize = if n < CHUNK {
            n
        } else {
            CHUNK
        };
        let ghost start = self@;
        let ghost t = self.table@;
        let ghost kw = self.kw as int;
        let ghost lo = self.lo as int;
        let ghost size = self.size;
        let ghost goal = spec_scan_from(start, t, kw, lo, w@, n as int, main as int, 0, size);
        let base = self.base;
        let mut out: Vec<(Object, u64)> = Vec::new();
        let mut pos: usize = 0;
        while pos < main && pos + 16 <= n
            invariant
                n == w@.len(),
                main == spec_main(n as int),
                1 <= main <= CHUNK,
                n == spec_window_len(base, size),
                base == start.base,
                base < size,
                t == self.table@,
                kw == self.kw,
                lo == self.lo,
                size == self.size,
                self.table@ == old(self).table@,
                self.kw == old(self).kw,
                self.lo == old(self).lo,
                self.size == old(self).size,
                self.layout == old(self).layout,
                self.selection() == old(self).selection(),
                self.held_layout() == old(self).held_layout(),
                start.found.len() <= self@.found.len(),
                spec_scan_from(self@, t, kw, lo, w@, n as int, main as int, pos as int, size) == goal,
                goal == spec_scan_from(start, t, kw, lo, w@, n as int, main as int, 0, size),
                start == old(self)@,
                pos % 8 == 0,
                pos <= main + 7,
                self@.base == base,
                self@.hashed == start.hashed,
                self@.zeros == start.zeros,
                self.streaming == old(self).streaming,
                self.core_ok(),
                lasts_below(self@.collector, base + if pos < main { pos as int } else { main as int }),
                self.collector.observations() <= 2 * base + 16 + pos / 4,
                self.rejected <= 2 * base + 16 + pos / 8,
                self.found@.len() <= 2 * base + 16 + pos / 8,
                out@.map_values(|p: (Object, u64)| p.0) == self@.found.skip(start.found.len() as int),
                forall|i: int| 0 <= i < out@.len() ==> (#[trigger] out@[i]).1 == word_of(w@, out@[i].0.offset - base, 8),
            decreases main + 8 - pos,
        {
            let ghost before = self@;
            match self.visit(w, pos) {
                Err(e) => {
                    proof {
                        let next = spec_step(before, t, kw, lo, w@, n as int, pos as int, size);
                        lemma_scan_from_grows(next, t, kw, lo, w@, n as int, main as int, pos + 8, size);
                        assert(spec_scan_from(before, t, kw, lo, w@, n as int, main as int, pos as int, size)
                            == spec_scan_from(next, t, kw, lo, w@, n as int, main as int, pos + 8, size));
                        assert(goal.found.len() > MAX_OBJECTS);
                        assert(spec_window(start, t, kw, lo, w@, size).found == goal.found);
                    }
                    return Err(e);
                },
                Ok(found) => {
                    match found {
                        Some(p) => {
                            proof {
                                assert(p.0 == self@.found.last());
                                assert(p.0.offset == base + pos) by {
                                    let o = spec_outcome(t, kw, lo, w@, n as int, pos as int, (base + pos) as u64, size);
                                    assert(o matches Outcome::Found(_));
                                }
                            }
                            let ghost old_out = out@;
                            out.push(p);
                            proof {
                                lemma_out_push(old_out, p, before.found, start.found.len() as int);
                            }
                        },
                        None => {},
                    }
                },
            }
            pos = pos + 8;
        }
        assert(self@ == goal);
        let chunk = vstd::slice::slice_subrange(w, 0, main);
        sha256_update(&mut self.hasher, chunk);
        let mut zeros: u64 = 0;
        let mut i: usize = 0;
        while i < main
            invariant
                i <= main,
                main <= w@.len(),
                chunk@ == w@.subrange(0, main as int),
                zeros == zero_count(chunk@.take(i as int)),
                zeros <= i,
            decreases main - i,
        {
            assert(chunk@.take(i + 1).drop_last() =~= chunk@.take(i as int));
            if chunk[i] == 0 {
                zeros = zeros + 1;
            }
            i = i + 1;
        }
        assert(chunk@.take(main as int) =~= w@.take(main as int));
        self.zeros = self.zeros + zeros;
        self.base = self.base + main as u64;
        proof {
            assert(pos / 4 <= 2 * main) by {
                assert(pos <= main + 7);
            }
            assert forall|g: int| 0 <= g < self@.collector.groups.len() implies (#[trigger] self@.collector.groups[g]).2.last < self.base by {
            }
        }
        Ok(out)
    }
}


/// Options of a scan.
#[derive(Debug)]
pub struct ScanOptions {
    /// Class names to index; all classes when empty.
    pub only: Vec<String>,
    /// The caller acknowledges that file offsets stand in for addresses (raw files).
    pub identity_mapping: bool,
    pub layout: Option<Layout>,
    pub discover_bindings: bool,
}

impl Default for ScanOptions {
    fn default() -> (o: ScanOptions)
        ensures
            o.only@.len() == 0,
            !o.identity_mapping,
            o.layout is None,
            !o.discover_bindings,
    {
        ScanOptions { only: Vec::new(), identity_mapping: false, layout: None, discover_bindings: false }
    }
}

/// Option checks of a scan of a capture bundle.
pub fn check_bundle_options(options: &ScanOptions) -> (r: Result<(), Error>)
    ensures
        r is Err <==> options.discover_bindings,
        r matches Err(e) ==> e == Error::DiscoveryNeedsRawScan,
{
    if options.discover_bindings {
        return Err(Error::DiscoveryNeedsRawScan);
    }
    Ok(())
}

/// Option checks of a scan of a raw capture file.
pub fn check_raw_options(options: &ScanOptions, streaming: bool) -> (r: Result<(), Error>)
    ensures
        options.discover_bindings && (options.layout is Some || streaming) ==> r == Err::<(), Error>(Error::DiscoveryConflict),
        !(options.discover_bindings && (options.layout is Some || streaming)) && options.layout is Some && !options.identity_mapping
            ==> r == Err::<(), Error>(Error::RawTypedScanNeedsIdentity),
        !(options.discover_bindings && (options.layout is Some || streaming)) && !(options.layout is Some && !options.identity_mapping)
            ==> r is Ok,
{
    if options.discover_bindings && (options.layout.is_some() || streaming) {
        return Err(Error::DiscoveryConflict);
    }
    if options.layout.is_some() && !options.identity_mapping {
        return Err(Error::RawTypedScanNeedsIdentity);
    }
    Ok(())
}

/// `b` begins with `p`.
pub open spec fn starts_with_bytes(b: Seq<u8>, p: Seq<u8>) -> bool {
    p.len() <= b.len() && b.take(p.len() as int) == p
}

/// A capture that begins like an HPROF dump (`JAVA PROFILE`), a gzip stream or an ELF file.
pub open spec fn foreign_format(head: Seq<u8>) -> bool {
    ||| starts_with_bytes(head, seq![0x4au8, 0x41, 0x56, 0x41, 0x20, 0x50, 0x52, 0x4f, 0x46, 0x49, 0x4c, 0x45])
    ||| starts_with_bytes(head, seq![0x1fu8, 0x8b])
    ||| starts_with_bytes(head, seq![0x7fu8, 0x45, 0x4c, 0x46])
}

/// Whether a capture begins like an HPROF dump, a gzip stream or an ELF file.
pub fn is_foreign(head: &[u8]) -> (r: bool)
    ensures
        r == foreign_format(head@),
{
    let hprof: [u8; 12] = [0x4a, 0x41, 0x56, 0x41, 0x20, 0x50, 0x52, 0x4f, 0x46, 0x49, 0x4c, 0x45];
    let gzip: [u8; 2] = [0x1f, 0x8b];
    let elf: [u8; 4] = [0x7f, 0x45, 0x4c, 0x46];
    assert(hprof@ == seq![0x4au8, 0x41, 0x56, 0x41, 0x20, 0x50, 0x52, 0x4f, 0x46, 0x49, 0x4c, 0x45]);
    assert(gzip@ == seq![0x1fu8, 0x8b]);
    assert(elf@ == seq![0x7fu8, 0x45, 0x4c, 0x46]);
    bytes_start_with(head, &hprof) || bytes_start_with(head, &gzip) || bytes_start_with(head, &elf)
}

fn bytes_start_with(b: &[u8], p: &[u8]) -> (r: bool)
    ensures
        r == starts_with_bytes(b@, p@),
{
    if p.len() > b.len() {
        return false;
    }
    let mut i: usize = 0;
    while i < p.len()
        invariant
            p@.len() <= b@.len(),
            i <= p@.len(),
            forall|k: int| 0 <= k < i ==> b@[k] == p@[k],
        decreases p@.len() - i,
    {
        if b[i] != p[i] {
            assert(b@.take(p@.len() as int)[i as int] != p@[i as int]);
            return false;
        }
        i = i + 1;
    }
    assert(b@.take(p@.len() as int) =~= p@);
    true
}

/// The checks before a scan starts, in order: the layout, the class selection, the capture
/// size, and the capture's first bytes.
pub open spec fn spec_start_check(size: u64, head: Seq<u8>, layout: Option<Layout>, only: Seq<Seq<char>>) -> Result<(), ErrorView> {
    match layout {
        Some(l) if spec_validate_layout(l@) is Err => spec_validate_layout(l@),
        _ => if only.len() > 0 && layout is None {
            Err(ErrorView::OnlyNeedsLayout)
        } else if layout is Some && first_unknown(only, layout->0@.classes) is Some {
            Err(ErrorView::UnknownOnlyClass(first_unknown(only, layout->0@.classes)->0))
        } else if !(24 <= size <= MAX_FILE) {
            Err(ErrorView::HeapSize)
        } else if foreign_format(head) {
            Err(ErrorView::NotRawHeap)
        } else {
            Ok(())
        },
    }
}

fn check_only(l: &Layout, only: &Vec<String>) -> (r: Result<(), Error>)
    ensures
        match first_unknown(only@.map_values(|s: String| s@), l@.classes) {
            Some(n) => r matches Err(e) && e@ == ErrorView::UnknownOnlyClass(n),
            None => r is Ok,
        },
{
    let ghost names = only@.map_values(|s: String| s@);
    let ghost known = l@.classes;
    let mut i: usize = 0;
    assert(names.skip(0) =~= names);
    while i < only.len()
        invariant
            i <= only@.len(),
            names == only@.map_values(|s: String| s@),
            known == l@.classes,
            first_unknown(names, known) == first_unknown(names.skip(i as int), known),
        decreases only@.len() - i,
    {
        let name = only[i].as_str();
        let mut found = false;
        let mut j: usize = 0;
        while j < l.classes.len()
            invariant
                j <= l.classes@.len(),
                known == l@.classes,
                found == exists|k: int| 0 <= k < j && #[trigger] known[k].name == name@,
            decreases l.classes@.len() - j,
        {
            assert(known[j as int].name == l.classes@[j as int].name@);
            if str_eq(l.classes[j].name.as_str(), name) {
                found = true;
            }
            j = j + 1;
        }
        let ghost rest = names.skip(i as int);
        assert(rest[0] == name@);
        assert(rest.drop_first() =~= names.skip(i + 1));
        if !found {
            return Err(Error::UnknownOnlyClass(only[i].clone()));
        }
        i = i + 1;
    }
    assert(names.skip(i as int) =~= Seq::<Seq<char>>::empty());
    Ok(())
}

/// The state of a scan before any window.
pub open spec fn initial_view(c: CollectorView) -> bool {
    &&& c.groups.len() == 0
    &&& c.raw_votes == (0u64, 0u64)
    &&& c.untracked_votes == (0u64, 0u64)
    &&& c.untracked_hits == (0u64, 0u64)
}

impl Scanner {
    /// Starts a scan of a capture of `size` bytes whose first bytes are `head`, with an
    /// optional layout and class selection. A streaming scan keeps no objects in memory.
    pub fn start(size: u64, head: &[u8], layout: Option<Layout>, only: Vec<String>, streaming: bool) -> (r: Result<Scanner, Error>)
        requires
            head@.len() == if size < 18 { size as int } else { 18 },
        ensures
            match spec_start_check(size, head@, layout, only@.map_values(|s: String| s@)) {
                Err(e) => r matches Err(x) && x@ == e,
                Ok(()) => r is Ok,
            },
            r matches Ok(s) ==> {
                &&& s.wf()
                &&& s@.base == 0
                &&& s@.found.len() == 0
                &&& s@.rejected == 0
                &&& s@.zeros == 0
                &&& s@.hashed.len() == 0
                &&& initial_view(s@.collector)
                &&& s.capture_size() == size
                &&& s.streaming() == streaming
                &&& s.held_layout() == layout
                &&& s.selection() == only@.map_values(|x: String| x@)
                &&& match layout {
                    Some(l) => {
                        &&& table_describes(s.table(), &l, only@.map_values(|x: String| x@))
                        &&& s.class_word_width() == spec_klass_width(l.profile@)
                        &&& s.length_at() == spec_length_offset(l.profile@)
                    },
                    None => {
                        &&& s.table().len() == 0
                        &&& s.class_word_width() == 8
                        &&& s.length_at() == 16
                    },
                }
            },
    {
        match &layout {
            Some(l) => {
                validate_layout(l)?;
            },
            None => {},
        }
        if only.len() > 0 && layout.is_none() {
            return Err(Error::OnlyNeedsLayout);
        }
        match &layout {
            Some(l) => {
                check_only(l, &only)?;
            },
            None => {},
        }
        if !(24 <= size && size <= MAX_FILE) {
            return Err(Error::HeapSize);
        }
        if is_foreign(head) {
            return Err(Error::NotRawHeap);
        }
        let (table, kw, lo) = match &layout {
            Some(l) => (class_table(l, &only), klass_width(l), length_offset(l)),
            None => (Vec::new(), 8, 16),
        };
        let mut class_counts: Vec<u64> = Vec::new();
        let n = match &layout {
            Some(l) => l.classes.len(),
            None => 0,
        };
        let mut i: usize = 0;
        while i < n
            invariant
                i <= n,
                class_counts@.len() == i,
                forall|k: int| 0 <= k < i ==> class_counts@[k] == 0,
            decreases n - i,
        {
            class_counts.push(0);
            i = i + 1;
        }
        let s = Scanner {
            size,
            kw,
            lo,
            table,
            streaming,
            collector: Collector::new(),
            hasher: sha256_new(),
            objects: Vec::new(),
            class_counts,
            rejected: 0,
            zeros: 0,
            base: 0,
            found: Ghost(Seq::empty()),
            layout,
            only,
        };
        proof {
            if s.layout is Some {
                assert forall|j: int| 0 <= j < s.table@.len() implies (#[trigger] s.table@[j]).id < s.class_counts@.len() by {}
            }
        }
        Ok(s)
    }
}


/// The classes of an optional layout.
pub open spec fn classes_of(l: Option<Layout>) -> Seq<ClassView> {
    match l {
        Some(l) => l@.classes,
        None => Seq::empty(),
    }
}

/// Candidates of the classes named `name` among the first `upto` classes.
pub open spec fn name_total(classes: Seq<ClassView>, found: Seq<Object>, name: Seq<char>, upto: int) -> nat
    decreases upto,
{
    if upto <= 0 {
        0
    } else {
        name_total(classes, found, name, upto - 1) + if classes[upto - 1].name == name { class_count(found, upto - 1) } else { 0nat }
    }
}

/// Candidates of the first `upto` classes.
pub open spec fn all_total(found: Seq<Object>, upto: int) -> nat
    decreases upto,
{
    if upto <= 0 {
        0
    } else {
        all_total(found, upto - 1) + class_count(found, upto - 1)
    }
}

proof fn lemma_all_total_push(found: Seq<Object>, o: Object, upto: int)
    ensures
        all_total(found.push(o), upto) == all_total(found, upto) + if 0 <= o.class_id < upto { 1nat } else { 0nat },
    decreases upto,
{
    if upto > 0 {
        lemma_all_total_push(found, o, upto - 1);
        lemma_class_count_push(found, o, upto - 1);
    }
}

proof fn lemma_all_total_bound(found: Seq<Object>, upto: int)
    ensures
        all_total(found, upto) <= found.len(),
    decreases found.len(),
{
    if found.len() > 0 {
        let f = found.drop_last();
        assert(f.push(found.last()) =~= found);
        lemma_all_total_push(f, found.last(), upto);
        lemma_all_total_bound(f, upto);
    } else {
        lemma_all_total_zero(found, upto);
    }
}

proof fn lemma_all_total_zero(found: Seq<Object>, upto: int)
    requires
        found.len() == 0,
    ensures
        all_total(found, upto) == 0,
    decreases upto,
{
    if upto > 0 {
        lemma_all_total_zero(found, upto - 1);
    }
}

proof fn lemma_name_total_bound(classes: Seq<ClassView>, found: Seq<Object>, name: Seq<char>, upto: int)
    ensures
        name_total(classes, found, name, upto) <= all_total(found, upto),
    decreases upto,
{
    if upto > 0 {
        lemma_name_total_bound(classes, found, name, upto - 1);
    }
}

impl Scanner {
    /// Finishes the scan: the index of candidates and header groups, and the header-shape
    /// detection. With an expected digest, a capture whose digest differs is refused.
    pub fn finish(self, mappings: Vec<Mapping>, identity_mapping: bool, expected: Option<&str>) -> (r: Result<(Index, SpacingDetection), Error>)
        requires
            self.wf(),
            self@.base >= self.capture_size(),
        ensures
            match expected {
                Some(e) if e@ != spec_hex_bytes(sha256(self@.hashed)) =>
                    r matches Err(x) && x@ == ErrorView::ChecksumMismatch("heap.raw"@),
                _ => r is Ok,
            },
            r matches Ok((ix, det)) ==> {
                &&& ix.version == 1
                &&& ix.mode@ == if self.held_layout() is Some { "layout-assisted"@ } else { "raw-candidates"@ }
                &&& ix.heap_sha256@ == spec_hex_bytes(sha256(self@.hashed))
                &&& ix.heap_bytes == self.capture_size()
                &&& ix.zero_bytes == self@.zeros
                &&& ix.layout_sha256 is None
                &&& ix.maps_sha256 is None
                &&& ix.layout == self.held_layout()
                &&& ix.mappings@ == mappings@
                &&& ix.objects@ == self.stored()
                &&& ix.raw_header_groups@.len() == self@.collector.groups.len()
                &&& forall|i: int| 0 <= i < ix.raw_header_groups@.len() ==> {
                    &&& (#[trigger] ix.raw_header_groups@[i]).0@ == ix.header_group_stats@[i].0@
                    &&& ix.raw_header_groups@[i].1 == self@.collector.groups[i].2.hits
                }
                &&& stats_describe(ix.header_group_stats@, self@.collector)
                &&& detection_describes(det, self@.collector)
                &&& ix.groups_truncated == (self@.collector.untracked_hits.0 > 0 || self@.collector.untracked_hits.1 > 0)
                &&& ix.rejected_headers == self@.rejected
                &&& ix.limitations@.map_values(|s: String| s@) == limitation_texts()
                &&& ix.identity_mapping == identity_mapping
                &&& ix.only@.map_values(|s: String| s@) == self.selection()
                &&& ix.streamed == self.streaming()
                &&& ix.class_counts.wf()
                &&& forall|name: Seq<char>| #[trigger] ix.class_counts.get(name) == (name_total(
                    classes_of(self.held_layout()),
                    self@.found, name, self.counts().len() as int) as u64, 0u64)
            },
    {
        let digest = sha256_finish(self.hasher);
        let heap_sha256 = hex_bytes(digest.as_slice());
        match expected {
            Some(e) => {
                if !str_eq(heap_sha256.as_str(), e) {
                    return Err(Error::ChecksumMismatch("heap.raw".to_owned()));
                }
            },
            None => {},
        }
        let report = self.collector.finish();
        let mut groups: Vec<(String, u64)> = Vec::new();
        let mut i: usize = 0;
        while i < report.stats.len()
            invariant
                i <= report.stats@.len(),
                groups@.len() == i,
                forall|k: int| 0 <= k < i ==> (#[trigger] groups@[k]).0@ == report.stats@[k].0@ && groups@[k].1 == report.stats@[k].1.hits,
            decreases report.stats@.len() - i,
        {
            let key = report.stats[i].0.clone();
            let hits = report.stats[i].1.hits;
            groups.push((key, hits));
            i = i + 1;
        }
        proof {
            assert forall|k: int| 0 <= k < groups@.len() implies report.stats@[k].1.hits == self@.collector.groups[k].2.hits by {
                assert(report.stats@[k].1.describes(self@.collector.groups[k].2));
            }
        }
        let ghost classes = classes_of(self.held_layout());
        let n = self.class_counts.len();
        let mut counts = Counts::new();
        let mut c: usize = 0;
        while c < n
            invariant
                c <= n,
                n == self.class_counts@.len(),
                n == classes.len(),
                classes == classes_of(self.held_layout()),
                forall|i: int| 0 <= i < n ==> #[trigger] self.class_counts@[i] == class_count(self.found@, i),
                self.found@.len() <= 2 * self.base + 16,
                self.base <= MAX_FILE,
                counts.wf(),
                forall|name: Seq<char>| #[trigger] counts.get(name) == (name_total(classes, self.found@, name, c as int) as u64, 0u64),
            decreases n - c,
        {
            let k = self.class_counts[c];
            if k > 0 {
                let name = match &self.layout {
                    Some(l) => l.classes[c].name.as_str(),
                    None => {
                        assert(false);
                        ""
                    },
                };
                proof {
                    assert(name@ == classes[c as int].name);
                    lemma_all_total_bound(self.found@, c + 1);
                    lemma_name_total_bound(classes, self.found@, name@, c + 1);
                }
                counts.add(name, k, 0);
            }
            c = c + 1;
        }
        let typed = self.layout.is_some();
        let mode = if typed {
            "layout-assisted".to_owned()
        } else {
            "raw-candidates".to_owned()
        };
        let truncated = report.truncated;
        let index = Index {
            version: 1,
            mode,
            heap_sha256,
            heap_bytes: self.size,
            zero_bytes: self.zeros,
            layout_sha256: None,
            maps_sha256: None,
            layout: self.layout,
            mappings,
            objects: self.objects,
            raw_header_groups: groups,
            header_group_stats: report.stats,
            groups_truncated: truncated,
            rejected_headers: self.rejected,
            limitations: limitations(),
            identity_mapping,
            only: self.only,
            streamed: self.streaming,
            class_counts: counts,
        };
        Ok((index, report.detection))
    }
}

/// `t2` is the table `t1`, which selects every class, with a class selection applied: the
/// same entries but for their `selected` flag, and one entry per class id.
pub open spec fn narrows(t1: Seq<ClassInfo>, t2: Seq<ClassInfo>) -> bool {
    &&& table_sorted(t1)
    &&& t1.len() == t2.len()
    &&& forall|j: int| 0 <= j < t1.len() ==> (#[trigger] t1[j]).selected
    &&& forall|j: int| 0 <= j < t1.len() ==> (#[trigger] t2[j]) == (ClassInfo { selected: t2[j].selected, ..t1[j] })
    &&& forall|a: int, b: int| 0 <= a < b < t1.len() ==> (#[trigger] t1[a]).id != (#[trigger] t1[b]).id
}

/// Whether the table selects the class with this id.
pub open spec fn id_selected(t: Seq<ClassInfo>, id: usize) -> bool {
    exists|j: int| 0 <= j < t.len() && (#[trigger] t[j]).id == id && t[j].selected
}

/// The objects whose class the table selects, in order.
pub open spec fn kept(t: Seq<ClassInfo>, objects: Seq<Object>) -> Seq<Object>
    decreases objects.len(),
{
    if objects.len() == 0 {
        Seq::empty()
    } else {
        let rest = kept(t, objects.drop_last());
        if id_selected(t, objects.last().class_id) { rest.push(objects.last()) } else { rest }
    }
}

/// Two scan states that agree but for the objects of unselected classes (and rejections).
pub open spec fn selection_of(v1: ScanView, v2: ScanView, t2: Seq<ClassInfo>) -> bool {
    &&& v2.collector == v1.collector
    &&& v2.found == kept(t2, v1.found)
    &&& v2.zeros == v1.zeros
    &&& v2.hashed == v1.hashed
    &&& v2.base == v1.base
}

proof fn lemma_find_narrow(t1: Seq<ClassInfo>, t2: Seq<ClassInfo>, k: u64)
    requires
        narrows(t1, t2),
    ensures
        match (spec_find(t1, k), spec_find(t2, k)) {
            (None, None) => true,
            (Some(c1), Some(c2)) => c1.selected && c2 == (ClassInfo { selected: c2.selected, ..c1 })
                && (c2.selected <==> id_selected(t2, c1.id)),
            _ => false,
        },
{
    assert(table_sorted(t2)) by {
        assert forall|a: int, b: int| 0 <= a < b < t2.len() implies (#[trigger] t2[a]).klass < (#[trigger] t2[b]).klass by {
            assert(t2[a].klass == t1[a].klass && t2[b].klass == t1[b].klass);
        }
    }
    if exists|j: int| #[trigger] klass_at(t1, k, j) {
        let j = choose|j: int| #[trigger] klass_at(t1, k, j);
        lemma_find_at(t1, j);
        assert(t2[j].klass == k);
        lemma_find_at(t2, j);
        assert(t1[j].selected);
        if t2[j].selected {
            assert(id_selected(t2, t1[j].id));
        } else if id_selected(t2, t1[j].id) {
            let m = choose|m: int| 0 <= m < t2.len() && (#[trigger] t2[m]).id == t1[j].id && t2[m].selected;
            assert(t2[m].id == t1[m].id);
            if m < j {
                assert(t1[m].id != t1[j].id);
            } else if m > j {
                assert(t1[j].id != t1[m].id);
            }
        }
    } else {
        assert forall|j: int| !(#[trigger] klass_at(t2, k, j)) by {
            if 0 <= j < t2.len() {
                assert(!klass_at(t1, k, j));
                assert(t2[j].klass == t1[j].klass);
            }
        }
    }
}

proof fn lemma_step_narrow(v1: ScanView, v2: ScanView, t1: Seq<ClassInfo>, t2: Seq<ClassInfo>, kw: int, lo: int, w: Seq<u8>, n: int, pos: int, size: u64)
    requires
        narrows(t1, t2),
        selection_of(v1, v2, t2),
    ensures
        selection_of(spec_step(v1, t1, kw, lo, w, n, pos, size), spec_step(v2, t2, kw, lo, w, n, pos, size), t2),
{
    let offset = (v1.base + pos) as u64;
    let klass = word_of(w, pos + 8, kw) as u64;
    lemma_find_narrow(t1, t2, klass);
    let s1 = spec_step(v1, t1, kw, lo, w, n, pos, size);
    match spec_outcome(t1, kw, lo, w, n, pos, offset, size) {
        Outcome::Found(o) => {
            assert(s1.found.drop_last() == v1.found);
            assert(s1.found.last() == o);
        },
        _ => {},
    }
}

proof fn lemma_scan_from_narrow(v1: ScanView, v2: ScanView, t1: Seq<ClassInfo>, t2: Seq<ClassInfo>, kw: int, lo: int, w: Seq<u8>, n: int, main: int, pos: int, size: u64)
    requires
        narrows(t1, t2),
        selection_of(v1, v2, t2),
    ensures
        selection_of(spec_scan_from(v1, t1, kw, lo, w, n, main, pos, size), spec_scan_from(v2, t2, kw, lo, w, n, main, pos, size), t2),
    decreases main + 8 - pos,
{
    if pos < main && pos + 16 <= n {
        lemma_step_narrow(v1, v2, t1, t2, kw, lo, w, n, pos, size);
        lemma_scan_from_narrow(spec_step(v1, t1, kw, lo, w, n, pos, size), spec_step(v2, t2, kw, lo, w, n, pos, size),
            t1, t2, kw, lo, w, n, main, pos + 8, size);
    }
}

/// Law: scanning a window with a class selection gives what scanning it with every class
/// gives, restricted to the selected classes: the same header groups, zero count and
/// hashed bytes, and the objects of the selected classes in the same order.
pub proof fn law_selection_filters_window(v1: ScanView, v2: ScanView, t1: Seq<ClassInfo>, t2: Seq<ClassInfo>, kw: int, lo: int, w: Seq<u8>, size: u64)
    requires
        narrows(t1, t2),
        selection_of(v1, v2, t2),
    ensures
        selection_of(spec_window(v1, t1, kw, lo, w, size), spec_window(v2, t2, kw, lo, w, size), t2),
{
    let n = w.len() as int;
    lemma_scan_from_narrow(v1, v2, t1, t2, kw, lo, w, n, spec_main(n), 0, size);
}

/// The class identities of a table, in order.
pub open spec fn klasses(t: Seq<ClassInfo>) -> Seq<u64> {
    t.map_values(|c: ClassInfo| c.klass)
}

proof fn lemma_same_klasses(t1: Seq<ClassInfo>, t2: Seq<ClassInfo>, l: &Layout, o1: Seq<Seq<char>>, o2: Seq<Seq<char>>)
    requires
        table_describes(t1, l, o1),
        table_describes(t2, l, o2),
    ensures
        klasses(t1) == klasses(t2),
{
    broadcast use vstd::multiset::group_multiset_axioms;
    broadcast use vstd::seq_lib::group_to_multiset_ensures;
    reveal(spec_info);
    let x = klasses(t1);
    let y = klasses(t2);
    assert forall|v: u64| x.contains(v) implies y.contains(v) by {
        let j = choose|j: int| 0 <= j < x.len() && x[j] == v;
        let id = t1[j].id;
        assert(has_entry(t2, id as int));
        let m = choose|m: int| 0 <= m < t2.len() && (#[trigger] t2[m]).id == id;
        assert(y[m] == v);
    }
    assert forall|v: u64| y.contains(v) implies x.contains(v) by {
        let j = choose|j: int| 0 <= j < y.len() && y[j] == v;
        let id = t2[j].id;
        assert(has_entry(t1, id as int));
        let m = choose|m: int| 0 <= m < t1.len() && (#[trigger] t1[m]).id == id;
        assert(x[m] == v);
    }
    assert(x.no_duplicates()) by {
        assert forall|a: int, b: int| 0 <= a < x.len() && 0 <= b < x.len() && a != b implies x[a] != x[b] by {
            if a < b { assert(t1[a].klass < t1[b].klass); } else { assert(t1[b].klass < t1[a].klass); }
        }
    }
    assert(y.no_duplicates()) by {
        assert forall|a: int, b: int| 0 <= a < y.len() && 0 <= b < y.len() && a != b implies y[a] != y[b] by {
            if a < b { assert(t2[a].klass < t2[b].klass); } else { assert(t2[b].klass < t2[a].klass); }
        }
    }
    x.lemma_multiset_has_no_duplicates();
    y.lemma_multiset_has_no_duplicates();
    assert(x.to_multiset() =~= y.to_multiset()) by {
        assert forall|v: u64| x.to_multiset().count(v) == y.to_multiset().count(v) by {
            if x.contains(v) {
                assert(x.to_multiset().contains(v));
                assert(y.to_multiset().contains(v));
            } else {
                assert(!y.contains(v));
            }
        }
    }
    let leq = |a: u64, b: u64| a <= b;
    assert(vstd::relations::sorted_by(x, leq)) by {
        assert forall|a: int, b: int| 0 <= a < b < x.len() implies #[trigger] leq(x[a], x[b]) by {
            assert(t1[a].klass < t1[b].klass);
        }
    }
    assert(vstd::relations::sorted_by(y, leq)) by {
        assert forall|a: int, b: int| 0 <= a < b < y.len() implies #[trigger] leq(y[a], y[b]) by {
            assert(t2[a].klass < t2[b].klass);
        }
    }
    assert(vstd::relations::total_ordering(leq));
    vstd::seq_lib::lemma_sorted_unique(x, y, leq);
}

/// Law: the class table built for a layout with a class selection is the table built with
/// no selection, with the selection applied (see [`narrows`]); so by
/// [`law_selection_filters_window`], a selective scan finds the full scan's objects of
/// the selected classes, with the same header groups and capture digest.
pub proof fn law_selection_tables(t1: Seq<ClassInfo>, t2: Seq<ClassInfo>, l: &Layout, only: Seq<Seq<char>>)
    requires
        table_describes(t1, l, Seq::empty()),
        table_describes(t2, l, only),
    ensures
        narrows(t1, t2),
{
    reveal(spec_info);
    lemma_same_klasses(t1, t2, l, Seq::empty(), only);
    assert forall|j: int| 0 <= j < t1.len() implies (#[trigger] t2[j]) == (ClassInfo { selected: t2[j].selected, ..t1[j] }) by {
        assert(klasses(t1)[j] == klasses(t2)[j]);
        let id = t1[j].id;
        assert(has_entry(t2, id as int));
        let m = choose|m: int| 0 <= m < t2.len() && (#[trigger] t2[m]).id == id;
        assert(t2[m].klass == t1[j].klass);
        if m < j {
            assert(t2[m].klass < t2[j].klass);
        } else if m > j {
            assert(t2[j].klass < t2[m].klass);
        }
    }
    assert forall|j: int| 0 <= j < t1.len() implies (#[trigger] t1[j]).selected by {}
    assert forall|a: int, b: int| 0 <= a < b < t1.len() implies (#[trigger] t1[a]).id != (#[trigger] t1[b]).id by {
        assert(t1[a].klass < t1[b].klass);
    }
}

/// Law: a streamed scan and an in-memory scan in the same state (same view, table, layout
/// and selection) agree on everything but what they keep: the same candidates per class,
/// while only the in-memory scan stores the objects found, in order. Since `feed` moves
/// both by the same `spec_window`, returning each window's new objects in either mode, and
/// `finish` derives digest, groups and class counts from the view, the two runs report the
/// same digest, header groups and class counts, and the streamed rows are the stored objects.
pub proof fn law_streaming_keeps_counts(kept: &Scanner, streamed: &Scanner)
    requires
        kept.wf(),
        streamed.wf(),
        kept@ == streamed@,
        kept.held_layout() == streamed.held_layout(),
        !kept.streaming(),
        streamed.streaming(),
    ensures
        kept.stored() == kept@.found,
        streamed.stored().len() == 0,
        kept.counts() =~= streamed.counts(),
{
    assert forall|i: int| 0 <= i < kept.counts().len() implies #[trigger] kept.counts()[i] == streamed.counts()[i] by {
        assert(kept.class_counts@[i] == class_count(kept.found@, i));
        assert(streamed.class_counts@[i] == class_count(streamed.found@, i));
    }
}

} // verus!
