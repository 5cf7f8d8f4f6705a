//! Explicit, hypothesis-bound String reading from raw captures: caller-supplied class
//! identities and reference hypothesis, bounded payloads, cached-hash evidence.
use vstd::prelude::*;
use crate::bytes::{le_value, mark_shape_ok, spec_aligned, aligned, word_at};
use crate::classmap::ClassBindings;
use crate::error::{Error, ErrorView, rview};
use crate::jstring::{java_hash, string_hash, code_units};
use crate::layout::{LayoutView, compressed, spec_compressed, spec_validate_layout, validate_layout};
use crate::number::{number, spec_number};
use crate::profiles::{boot, spec_boot};
use crate::references::ReferenceModel;
use crate::scanner::word_of;
use crate::text::str_eq;
use crate::counts::Counts;
use crate::digest::{Hasher, absorbed, sha256, sha256_new, sha256_update, sha256_finish, hex_bytes, spec_hex_bytes};
use crate::layout::CHUNK;
use crate::scanner::{MAX_FILE, foreign_format, starts_with_bytes};
use crate::spacing::{mix, advance, sort_gaps, gap_leq};

verus! {

/// The default payload bound of String commands.
pub const DEFAULT_MAX_BYTES: u64 = 65536;
/// The largest payload bound, and the largest read.
pub const MAX_BYTES: u64 = 1048576;
/// The most samples a binding verification draws.
pub const MAX_SAMPLES: usize = 10000;

/// The caller's assumptions for String reading: boot profile, reference hypothesis, the
/// String and byte[] class identities, and the payload bound.
#[derive(Debug)]
pub struct Bindings {
    profile: String,
    model: ReferenceModel,
    narrow: bool,
    string_klass: u64,
    array_klass: u64,
    max_bytes: u64,
}

/// The mathematical form of [`Bindings`].
pub struct BindingsView {
    pub profile: Seq<char>,
    pub model: ReferenceModel,
    pub narrow: bool,
    pub string_klass: u64,
    pub array_klass: u64,
    pub max_bytes: u64,
}

impl View for Bindings {
    type V = BindingsView;

    closed spec fn view(&self) -> BindingsView {
        BindingsView {
            profile: self.profile@,
            model: self.model,
            narrow: self.narrow,
            string_klass: self.string_klass,
            array_klass: self.array_klass,
            max_bytes: self.max_bytes,
        }
    }
}

/// The checks of [`Bindings::new`], in order: exactly the two String bindings, the payload
/// bound, the boot layout and its validity, the hypothesis and its generation, and the two
/// identities.
pub open spec fn spec_bindings(profile: Seq<char>, hypothesis: Seq<char>, b: &ClassBindings, max_bytes: u64) -> Result<BindingsView, ErrorView> {
    if b.entries().len() != 2 || b.spec_get("java.lang.String"@) is None || b.spec_get("[B"@) is None {
        Err(ErrorView::StringBindingsRequired)
    } else if !(1 <= max_bytes <= MAX_BYTES) {
        Err(ErrorView::MaxBytesRange)
    } else {
        match spec_boot(profile, b.entries()) {
            Err(e) => Err(e),
            Ok(l) => if spec_validate_layout(l) is Err {
                Err(spec_validate_layout(l)->Err_0)
            } else {
                let narrow = spec_compressed(l.profile);
                match ReferenceModel::spec_parse(hypothesis) {
                    None => Err(ErrorView::UnknownReferenceHypothesis),
                    Some(model) => if model.spec_profile(narrow) != profile {
                        Err(ErrorView::HypothesisConflictsProfile)
                    } else {
                        let s = b.spec_get("java.lang.String"@)->0;
                        let a = b.spec_get("[B"@)->0;
                        match (spec_number(s), spec_number(a)) {
                            (None, _) => Err(ErrorView::InvalidNumber(s)),
                            (_, None) => Err(ErrorView::InvalidNumber(a)),
                            (Some(sk), Some(ak)) => Ok(BindingsView {
                                profile,
                                model,
                                narrow,
                                string_klass: sk,
                                array_klass: ak,
                                max_bytes,
                            }),
                        }
                    },
                }
            },
        }
    }
}

impl Bindings {
    /// Checks and records the caller's String assumptions (see [`spec_bindings`]).
    pub fn new(profile: &str, hypothesis: &str, bindings: &ClassBindings, max_bytes: u64) -> (r: Result<Bindings, Error>)
        requires
            bindings.well_formed(),
        ensures
            match r {
                Ok(b) => spec_bindings(profile@, hypothesis@, bindings, max_bytes) == Ok::<BindingsView, ErrorView>(b@),
                Err(e) => spec_bindings(profile@, hypothesis@, bindings, max_bytes) == Err::<BindingsView, ErrorView>(e@),
            },
    {
        if bindings.len() != 2 || !bindings.contains_key("java.lang.String") || !bindings.contains_key("[B") {
            return Err(Error::StringBindingsRequired);
        }
        if !(1 <= max_bytes && max_bytes <= MAX_BYTES) {
            return Err(Error::MaxBytesRange);
        }
        let layout = boot(profile, bindings)?;
        validate_layout(&layout)?;
        let narrow = compressed(&layout);
        let model = ReferenceModel::parse(hypothesis)?;
        if !str_eq(model.profile(narrow), profile) {
            return Err(Error::HypothesisConflictsProfile);
        }
        let s = match bindings.get("java.lang.String") {
            Some(s) => s,
            None => {
                return Err(Error::StringBindingsRequired);
            },
        };
        let a = match bindings.get("[B") {
            Some(a) => a,
            None => {
                return Err(Error::StringBindingsRequired);
            },
        };
        let string_klass = number(s.as_str())?;
        let array_klass = number(a.as_str())?;
        Ok(Bindings { profile: profile.to_owned(), model, narrow, string_klass, array_klass, max_bytes })
    }

    /// The width of the class word under these bindings.
    pub fn kw(&self) -> (r: usize)
        ensures
            r == if self@.narrow { 4usize } else { 8usize },
    {
        if self.narrow {
            4
        } else {
            8
        }
    }

    pub fn profile(&self) -> (r: &str)
        ensures
            r@ == self@.profile,
    {
        self.profile.as_str()
    }

    pub fn model(&self) -> (r: ReferenceModel)
        ensures
            r == self@.model,
    {
        self.model
    }

    pub fn narrow(&self) -> (r: bool)
        ensures
            r == self@.narrow,
    {
        self.narrow
    }

    pub fn string_klass(&self) -> (r: u64)
        ensures
            r == self@.string_klass,
    {
        self.string_klass
    }

    pub fn array_klass(&self) -> (r: u64)
        ensures
            r == self@.array_klass,
    {
        self.array_klass
    }

    pub fn max_bytes(&self) -> (r: u64)
        ensures
            r == self@.max_bytes,
    {
        self.max_bytes
    }
}


/// Why a String candidate was not decoded.
#[derive(Debug, Clone, Copy, PartialEq, Eq, Structural)]
pub enum Reject {
    StringOutOfBounds,
    StringHeaderMismatch,
    InvalidStringFields,
    UnresolvedReference,
    ArrayOutOfBounds,
    ArrayHeaderMismatch,
    InvalidArrayLength,
    ArrayExtentOrOverlap,
    PayloadLimit,
}

impl Reject {
    pub open spec fn spec_name(self) -> Seq<char> {
        match self {
            Reject::StringOutOfBounds => "string-out-of-bounds"@,
            Reject::StringHeaderMismatch => "string-header-mismatch"@,
            Reject::InvalidStringFields => "invalid-string-fields"@,
            Reject::UnresolvedReference => "unresolved-reference"@,
            Reject::ArrayOutOfBounds => "array-out-of-bounds"@,
            Reject::ArrayHeaderMismatch => "array-header-mismatch"@,
            Reject::InvalidArrayLength => "invalid-array-length"@,
            Reject::ArrayExtentOrOverlap => "array-extent-or-overlap"@,
            Reject::PayloadLimit => "payload-limit"@,
        }
    }

    pub fn name(self) -> (r: &'static str)
        ensures
            r@ == self.spec_name(),
    {
        match self {
            Reject::StringOutOfBounds => "string-out-of-bounds",
            Reject::StringHeaderMismatch => "string-header-mismatch",
            Reject::InvalidStringFields => "invalid-string-fields",
            Reject::UnresolvedReference => "unresolved-reference",
            Reject::ArrayOutOfBounds => "array-out-of-bounds",
            Reject::ArrayHeaderMismatch => "array-header-mismatch",
            Reject::InvalidArrayLength => "invalid-array-length",
            Reject::ArrayExtentOrOverlap => "array-extent-or-overlap",
            Reject::PayloadLimit => "payload-limit",
        }
    }
}

/// How a String's cached hash relates to its payload.
#[derive(Debug, Clone, Copy, PartialEq, Eq, Structural)]
pub enum HashStatus {
    /// No hash is cached (zero, and not marked as a zero hash).
    NotCached,
    /// The cached hash differs from the payload's.
    Mismatch,
    /// The cached hash is zero and marked as such, and the payload hashes to zero.
    ZeroHashMatch,
    /// The nonzero cached hash equals the payload's.
    Match,
}

impl HashStatus {
    pub open spec fn spec_name(self) -> Seq<char> {
        match self {
            HashStatus::NotCached => "not-cached"@,
            HashStatus::Mismatch => "mismatch"@,
            HashStatus::ZeroHashMatch => "zero-hash-match"@,
            HashStatus::Match => "match"@,
        }
    }

    pub fn name(self) -> (r: &'static str)
        ensures
            r@ == self.spec_name(),
    {
        match self {
            HashStatus::NotCached => "not-cached",
            HashStatus::Mismatch => "mismatch",
            HashStatus::ZeroHashMatch => "zero-hash-match",
            HashStatus::Match => "match",
        }
    }
}

/// The hash status of a cached hash, its hash-is-zero flag and the payload's hash.
pub open spec fn spec_status(cached: u32, zero: u8, computed: u32) -> HashStatus {
    if cached == 0 && zero == 0 {
        HashStatus::NotCached
    } else if cached != computed {
        HashStatus::Mismatch
    } else if cached == 0 {
        HashStatus::ZeroHashMatch
    } else {
        HashStatus::Match
    }
}

/// A String header's fields that the decoding needs.
#[derive(Debug, Clone, Copy, PartialEq, Eq)]
pub struct StringHeader {
    pub offset: u64,
    pub cached: u32,
    pub coder: u8,
    pub zero: u8,
    pub raw: u64,
    pub target: u64,
}

/// A decoded String and its backing byte array.
#[derive(Debug)]
pub struct Pair {
    pub offset: u64,
    pub target: u64,
    pub raw: u64,
    pub payload: Vec<u8>,
    pub coder: u8,
    pub cached: u32,
    pub computed: u32,
    pub status: HashStatus,
}

/// The mathematical form of a [`Pair`].
pub struct PairView {
    pub offset: u64,
    pub target: u64,
    pub raw: u64,
    pub payload: Seq<u8>,
    pub coder: u8,
    pub cached: u32,
    pub computed: u32,
    pub status: HashStatus,
}

impl View for Pair {
    type V = PairView;

    open spec fn view(&self) -> PairView {
        PairView {
            offset: self.offset,
            target: self.target,
            raw: self.raw,
            payload: self.payload@,
            coder: self.coder,
            cached: self.cached,
            computed: self.computed,
            status: self.status,
        }
    }
}

/// A String candidate: decoded, or rejected with a reason.
#[derive(Debug)]
pub enum Decoded {
    Pair(Pair),
    Rejected(Reject),
}

/// The mathematical form of [`Decoded`].
pub enum DecodedView {
    Pair(PairView),
    Rejected(Reject),
}

impl View for Decoded {
    type V = DecodedView;

    open spec fn view(&self) -> DecodedView {
        match self {
            Decoded::Pair(p) => DecodedView::Pair(p@),
            Decoded::Rejected(r) => DecodedView::Rejected(*r),
        }
    }
}

/// A read of `length` bytes at `offset` is allowed: at most `MAX_BYTES`, inside the capture.
pub open spec fn fits(offset: u64, length: u64, size: u64) -> bool {
    length <= MAX_BYTES && offset + length <= size
}

/// The payload offset of a byte array under a header width.
pub open spec fn array_base(narrow: bool) -> u64 {
    if narrow { 16 } else { 24 }
}

/// Checks the 32 header bytes of a String candidate at `offset`: alignment, mark word and
/// class identity; the cached hash, coder and hash-is-zero fields; and the value reference,
/// which must resolve under the hypothesis to an 8-aligned offset.
pub open spec fn spec_string_header(b: BindingsView, offset: u64, h: Seq<u8>) -> Result<StringHeader, Reject> {
    let kw: int = if b.narrow { 4 } else { 8 };
    if offset % 8 != 0 || !mark_shape_ok(word_of(h, 0, 8)) || word_of(h, 8, kw) != b.string_klass {
        Err(Reject::StringHeaderMismatch)
    } else {
        let cached = word_of(h, 8 + kw, 4) as u32;
        let coder = h[12 + kw];
        let zero = h[13 + kw];
        if coder > 1 || zero > 1 || (zero == 1 && cached != 0) {
            Err(Reject::InvalidStringFields)
        } else {
            let raw = word_of(h, 24, 8) as u64;
            match b.model.spec_target(raw) {
                Some(t) if t % 8 == 0 => Ok(StringHeader { offset, cached, coder, zero, raw, target: t }),
                _ => Err(Reject::UnresolvedReference),
            }
        }
    }
}

/// Checks the byte-array header at the String's target: mark word and class identity, the
/// 32-bit length (at most `i32::MAX`, even for UTF-16), an extent inside the capture that
/// does not overlap the String header, and the payload bound. Yields the length.
pub open spec fn spec_array_check(b: BindingsView, h: StringHeader, a: Seq<u8>, size: u64) -> Result<u64, Reject> {
    let kw: int = if b.narrow { 4 } else { 8 };
    let base = array_base(b.narrow);
    if !mark_shape_ok(word_of(a, 0, 8)) || word_of(a, 8, kw) != b.array_klass {
        Err(Reject::ArrayHeaderMismatch)
    } else {
        let len = word_of(a, 8 + kw, 4) as u64;
        if len > 0x7fff_ffff || (h.coder == 1 && len % 2 != 0) {
            Err(Reject::InvalidArrayLength)
        } else {
            match spec_aligned((base + len) as u64) {
                Some(n) if h.target + n <= u64::MAX && h.target + n <= size
                    && !(h.offset < h.target + n && h.target < h.offset + 32) => if len > b.max_bytes {
                    Err(Reject::PayloadLimit)
                } else {
                    Ok(len)
                },
                _ => Err(Reject::ArrayExtentOrOverlap),
            }
        }
    }
}

/// The decoded pair from a checked header and its payload.
pub open spec fn spec_pair(h: StringHeader, payload: Seq<u8>) -> PairView {
    let computed = string_hash(code_units(payload, h.coder));
    PairView {
        offset: h.offset,
        target: h.target,
        raw: h.raw,
        payload,
        coder: h.coder,
        cached: h.cached,
        computed,
        status: spec_status(h.cached, h.zero, computed),
    }
}

/// The String candidate at `offset` of a capture with contents `cap`.
pub open spec fn spec_decode(b: BindingsView, offset: u64, cap: Seq<u8>) -> DecodedView {
    let size = cap.len() as u64;
    if !fits(offset, 32, size) {
        DecodedView::Rejected(Reject::StringOutOfBounds)
    } else {
        match spec_string_header(b, offset, cap.subrange(offset as int, offset + 32)) {
            Err(r) => DecodedView::Rejected(r),
            Ok(h) => {
                let base = array_base(b.narrow);
                if !fits(h.target, base, size) {
                    DecodedView::Rejected(Reject::ArrayOutOfBounds)
                } else {
                    match spec_array_check(b, h, cap.subrange(h.target as int, h.target + base), size) {
                        Err(r) => DecodedView::Rejected(r),
                        Ok(len) => DecodedView::Pair(spec_pair(h, cap.subrange(h.target + base, h.target + base + len))),
                    }
                }
            },
        }
    }
}


/// The next step of decoding a String candidate: a read the caller must perform, or the result.
#[derive(Debug)]
pub enum DecodeStep {
    Read { offset: u64, len: u64 },
    Done(Decoded),
}

/// The mathematical form of [`DecodeStep`].
pub enum StepView {
    Read(u64, u64),
    Done(DecodedView),
}

impl View for DecodeStep {
    type V = StepView;

    open spec fn view(&self) -> StepView {
        match self {
            DecodeStep::Read { offset, len } => StepView::Read(*offset, *len),
            DecodeStep::Done(d) => StepView::Done(d@),
        }
    }
}

/// The decoding step after the answers `reads` to the earlier read requests: the String
/// header (32 bytes), the byte-array header, then the payload.
pub open spec fn spec_decode_step(b: BindingsView, size: u64, offset: u64, reads: Seq<Seq<u8>>) -> StepView {
    if !fits(offset, 32, size) {
        StepView::Done(DecodedView::Rejected(Reject::StringOutOfBounds))
    } else if reads.len() == 0 {
        StepView::Read(offset, 32)
    } else {
        match spec_string_header(b, offset, reads[0]) {
            Err(r) => StepView::Done(DecodedView::Rejected(r)),
            Ok(h) => {
                let base = array_base(b.narrow);
                if !fits(h.target, base, size) {
                    StepView::Done(DecodedView::Rejected(Reject::ArrayOutOfBounds))
                } else if reads.len() == 1 {
                    StepView::Read(h.target, base)
                } else {
                    match spec_array_check(b, h, reads[1], size) {
                        Err(r) => StepView::Done(DecodedView::Rejected(r)),
                        Ok(len) => if reads.len() == 2 {
                            StepView::Read((h.target + base) as u64, len)
                        } else {
                            StepView::Done(DecodedView::Pair(spec_pair(h, reads[2])))
                        },
                    }
                }
            },
        }
    }
}

/// `read` answers the read request `step` with as many bytes as it asked for.
pub open spec fn answers(step: StepView, read: Seq<u8>) -> bool {
    match step {
        StepView::Read(_, l) => read.len() == l,
        StepView::Done(_) => false,
    }
}

/// `read` holds the capture bytes that the read request `step` named.
pub open spec fn answers_from(step: StepView, read: Seq<u8>, cap: Seq<u8>) -> bool {
    match step {
        StepView::Read(o, l) => read == cap.subrange(o as int, o + l),
        StepView::Done(_) => false,
    }
}

/// Each read answers the request made before it with that many bytes.
pub open spec fn answered(b: BindingsView, size: u64, offset: u64, reads: Seq<Seq<u8>>) -> bool {
    forall|i: int| 0 <= i < reads.len() ==> answers(#[trigger] spec_decode_step(b, size, offset, reads.take(i)), reads[i])
}

/// Each read holds the capture bytes that its request named.
pub open spec fn read_from(b: BindingsView, offset: u64, cap: Seq<u8>, reads: Seq<Seq<u8>>) -> bool {
    forall|i: int| 0 <= i < reads.len() ==> answers_from(#[trigger] spec_decode_step(b, cap.len() as u64, offset, reads.take(i)), reads[i], cap)
}

/// Law: decoding step by step, with each read answered from the capture, ends in the
/// capture's decoded candidate, after at most three reads.
pub proof fn law_decode_by_steps(b: BindingsView, offset: u64, cap: Seq<u8>, reads: Seq<Seq<u8>>)
    requires
        cap.len() <= u64::MAX,
        read_from(b, offset, cap, reads),
    ensures
        spec_decode_step(b, cap.len() as u64, offset, reads) matches StepView::Done(d) ==> d == spec_decode(b, offset, cap),
        spec_decode_step(b, cap.len() as u64, offset, reads) is Read ==> reads.len() < 3,
{
    let size = cap.len() as u64;
    if reads.len() >= 1 {
        assert(reads.take(0) =~= Seq::<Seq<u8>>::empty());
        assert(answers_from(spec_decode_step(b, size, offset, reads.take(0)), reads[0], cap));
    }
    if reads.len() >= 2 {
        assert(reads.take(1)[0] == reads[0]);
        assert(answers_from(spec_decode_step(b, size, offset, reads.take(1)), reads[1], cap));
    }
    if reads.len() >= 3 {
        assert(reads.take(2)[0] == reads[0]);
        assert(reads.take(2)[1] == reads[1]);
        assert(answers_from(spec_decode_step(b, size, offset, reads.take(2)), reads[2], cap));
    }
}

impl Bindings {
    fn string_header(&self, offset: u64, h: &[u8]) -> (r: Result<StringHeader, Reject>)
        requires
            h@.len() == 32,
        ensures
            r == spec_string_header(self@, offset, h@),
            r matches Ok(x) ==> x.offset == offset,
    {
        let kw = self.kw();
        if offset % 8 != 0 || !crate::bytes::mark_ok(h) || word_at(h, 8, kw) != self.string_klass {
            return Err(Reject::StringHeaderMismatch);
        }
        let cached = word_at(h, 8 + kw, 4) as u32;
        let coder = h[12 + kw];
        let zero = h[13 + kw];
        if coder > 1 || zero > 1 || (zero == 1 && cached != 0) {
            return Err(Reject::InvalidStringFields);
        }
        let raw = word_at(h, 24, 8);
        match self.model.target(raw) {
            Some(t) => if t % 8 == 0 {
                Ok(StringHeader { offset, cached, coder, zero, raw, target: t })
            } else {
                Err(Reject::UnresolvedReference)
            },
            None => Err(Reject::UnresolvedReference),
        }
    }

    fn array_check(&self, h: StringHeader, a: &[u8], size: u64) -> (r: Result<u64, Reject>)
        requires
            a@.len() == array_base(self@.narrow),
            h.offset + 32 <= u64::MAX,
        ensures
            r == spec_array_check(self@, h, a@, size),
    {
        let kw = self.kw();
        let base: u64 = if self.narrow {
            16
        } else {
            24
        };
        if !crate::bytes::mark_ok(a) || word_at(a, 8, kw) != self.array_klass {
            return Err(Reject::ArrayHeaderMismatch);
        }
        let len = word_at(a, 8 + kw, 4);
        if len > 0x7fff_ffff || (h.coder == 1 && len % 2 != 0) {
            return Err(Reject::InvalidArrayLength);
        }
        let end = match aligned(base + len) {
            Some(n) => h.target.checked_add(n),
            None => None,
        };
        match end {
            Some(e) => {
                if e > size || (h.offset < e && h.target < h.offset + 32) {
                    return Err(Reject::ArrayExtentOrOverlap);
                }
            },
            None => {
                return Err(Reject::ArrayExtentOrOverlap);
            },
        }
        if len > self.max_bytes {
            return Err(Reject::PayloadLimit);
        }
        Ok(len)
    }

    /// The next step of decoding the String candidate at `offset` of a capture of `size`
    /// bytes, given the answers to the earlier read requests (see [`spec_decode_step`]).
    pub fn decode_step(&self, size: u64, offset: u64, reads: &Vec<Vec<u8>>) -> (r: DecodeStep)
        requires
            answered(self@, size, offset, reads@.map_values(|v: Vec<u8>| v@)),
            reads@.len() <= 3,
        ensures
            r@ == spec_decode_step(self@, size, offset, reads@.map_values(|v: Vec<u8>| v@)),
    {
        let ghost rs = reads@.map_values(|v: Vec<u8>| v@);
        let fits32 = match offset.checked_add(32) {
            Some(e) => e <= size,
            None => false,
        };
        if !fits32 {
            return DecodeStep::Done(Decoded::Rejected(Reject::StringOutOfBounds));
        }
        if reads.len() == 0 {
            return DecodeStep::Read { offset, len: 32 };
        }
        proof {
            assert(rs.take(0) =~= Seq::<Seq<u8>>::empty());
            assert(answers(spec_decode_step(self@, size, offset, rs.take(0)), rs[0]));
        }
        let h = match self.string_header(offset, reads[0].as_slice()) {
            Err(r) => {
                return DecodeStep::Done(Decoded::Rejected(r));
            },
            Ok(h) => h,
        };
        let base: u64 = if self.narrow {
            16
        } else {
            24
        };
        let fits_array = match h.target.checked_add(base) {
            Some(e) => e <= size,
            None => false,
        };
        if !fits_array {
            return DecodeStep::Done(Decoded::Rejected(Reject::ArrayOutOfBounds));
        }
        if reads.len() == 1 {
            return DecodeStep::Read { offset: h.target, len: base };
        }
        proof {
            assert(rs.take(1)[0] == rs[0]);
            assert(answers(spec_decode_step(self@, size, offset, rs.take(1)), rs[1]));
        }
        let len = match self.array_check(h, reads[1].as_slice(), size) {
            Err(r) => {
                return DecodeStep::Done(Decoded::Rejected(r));
            },
            Ok(len) => len,
        };
        if reads.len() == 2 {
            return DecodeStep::Read { offset: h.target + base, len };
        }
        let payload = vstd::slice::slice_to_vec(reads[2].as_slice());
        let computed = java_hash(payload.as_slice(), h.coder);
        let status = if h.cached == 0 && h.zero == 0 {
            HashStatus::NotCached
        } else if h.cached != computed {
            HashStatus::Mismatch
        } else if h.cached == 0 {
            HashStatus::ZeroHashMatch
        } else {
            HashStatus::Match
        };
        DecodeStep::Done(Decoded::Pair(Pair {
            offset,
            target: h.target,
            raw: h.raw,
            payload,
            coder: h.coder,
            cached: h.cached,
            computed,
            status,
        }))
    }
}

impl Pair {
    /// The number of UTF-16 code units.
    pub fn units(&self) -> (n: usize)
        ensures
            n == self.payload@.len() as int / (1 + self.coder as int),
    {
        self.payload.len() / (1 + self.coder as usize)
    }

    /// The text and whether UTF-16 decoding was lossy.
    pub fn text(&self) -> (r: (String, bool))
        ensures
            r.0@ == crate::jstring::spec_payload_text(self.payload@, self.coder).0,
            r.1 == crate::jstring::spec_payload_text(self.payload@, self.coder).1,
    {
        crate::jstring::payload_text(self.payload.as_slice(), self.coder)
    }
}


/// Each String-walk window overlaps the next chunk by this many bytes.
pub const WALK_OVERLAP: usize = 32;

/// The 8-aligned positions below `main` of a window read at `base` whose `need` bytes fit
/// in the window and that hold a supported mark word and one of the class identities.
pub open spec fn spec_candidates(w: Seq<u8>, main: int, base: u64, kw: int, klasses: Seq<u64>, need: int, pos: int) -> Seq<u64>
    decreases main + 8 - pos,
{
    if pos < main && pos + need <= w.len() {
        let rest = spec_candidates(w, main, base, kw, klasses, need, pos + 8);
        if klasses.contains(word_of(w, pos + 8, kw) as u64) && mark_shape_ok(word_of(w, pos, 8)) {
            seq![(base + pos) as u64] + rest
        } else {
            rest
        }
    } else {
        Seq::empty()
    }
}

/// A walk over every header candidate of some class identities in a raw capture, with the
/// capture's digest. The caller reads each window at [`Walker::base`].
pub struct Walker {
    size: u64,
    base: u64,
    hasher: Hasher,
    count: u64,
}

impl Walker {
    pub closed spec fn capture_size(&self) -> u64 {
        self.size
    }

    pub closed spec fn position(&self) -> u64 {
        self.base
    }

    pub closed spec fn hashed(&self) -> Seq<u8> {
        absorbed(self.hasher)
    }

    pub closed spec fn candidates_seen(&self) -> nat {
        self.count as nat
    }

    pub closed spec fn wf(&self) -> bool {
        &&& self.base <= self.size <= MAX_FILE
        &&& absorbed(self.hasher).len() == self.base
        &&& self.count <= self.base
    }

    /// Starts a walk of a capture of `size` bytes whose first bytes are `head`.
    pub fn start(size: u64, head: &[u8]) -> (r: Result<Walker, Error>)
        requires
            head@.len() == if size < 18 { size as int } else { 18 },
        ensures
            !(32 <= size <= MAX_FILE) ==> r == Err::<Walker, Error>(Error::RawFileSize),
            (32 <= size <= MAX_FILE) && foreign_format(head@) ==> r == Err::<Walker, Error>(Error::NotRawCapture),
            (32 <= size <= MAX_FILE) && !foreign_format(head@) ==> r is Ok,
            r matches Ok(w) ==> w.wf() && w.position() == 0 && w.capture_size() == size && w.candidates_seen() == 0
                && w.hashed().len() == 0,
    {
        if !(32 <= size && size <= MAX_FILE) {
            return Err(Error::RawFileSize);
        }
        if crate::scanner::is_foreign(head) {
            return Err(Error::NotRawCapture);
        }
        Ok(Walker { size, base: 0, hasher: sha256_new(), count: 0 })
    }

    pub fn base(&self) -> (b: u64)
        ensures
            b == self.position(),
    {
        self.base
    }

    pub fn done(&self) -> (d: bool)
        ensures
            d == (self.position() >= self.capture_size()),
    {
        self.base >= self.size
    }

    /// The number of bytes the next window must hold.
    pub fn window_len(&self) -> (n: usize)
        requires
            self.wf(),
            self.position() < self.capture_size(),
        ensures
            n == if self.capture_size() - self.position() < CHUNK + WALK_OVERLAP { (self.capture_size() - self.position()) as int } else { (CHUNK + WALK_OVERLAP) as int },
    {
        let rest = self.size - self.base;
        if rest < (CHUNK + WALK_OVERLAP) as u64 {
            rest as usize
        } else {
            CHUNK + WALK_OVERLAP
        }
    }

    /// Walks one window: the candidates of its chunk with `need` bytes available, whose class
    /// word (of `kw` bytes) is one of `klasses`; the chunk is added to the digest.
    pub fn feed(&mut self, w: &[u8], kw: usize, klasses: &Vec<u64>, need: usize) -> (found: Vec<u64>)
        requires
            old(self).wf(),
            old(self).position() < old(self).capture_size(),
            w@.len() == if old(self).capture_size() - old(self).position() < CHUNK + WALK_OVERLAP {
                (old(self).capture_size() - old(self).position()) as int
            } else {
                (CHUNK + WALK_OVERLAP) as int
            },
            kw == 4 || kw == 8,
            16 <= need <= 64,
        ensures
            final(self).wf(),
            final(self).capture_size() == old(self).capture_size(),
            found@ == spec_candidates(w@, if w@.len() < CHUNK { w@.len() as int } else { CHUNK as int }, old(self).position(), kw as int, klasses@, need as int, 0),
            final(self).hashed() == old(self).hashed() + w@.take(if w@.len() < CHUNK { w@.len() as int } else { CHUNK as int }),
            final(self).position() == old(self).position() + if w@.len() < CHUNK { w@.len() as int } else { CHUNK as int },
            final(self).candidates_seen() == old(self).candidates_seen() + found@.len(),
    {
        let n = w.len();
        let main: usize = if n < CHUNK {
            n
        } else {
            CHUNK
        };
        let ghost goal = spec_candidates(w@, main as int, self.base, kw as int, klasses@, need as int, 0);
        let mut found: Vec<u64> = Vec::new();
        let mut pos: usize = 0;
        while pos < main && pos + need <= n
            invariant
                n == w@.len(),
                main <= n,
                main <= CHUNK,
                16 <= need <= 64,
                kw == 4 || kw == 8,
                pos % 8 == 0,
                pos <= main + 7,
                self.base + n <= self.size,
                found@ + spec_candidates(w@, main as int, self.base, kw as int, klasses@, need as int, pos as int) == goal,
                found@.len() <= pos / 8,
            decreases main + 8 - pos,
        {
            let klass = word_at(w, pos + 8, kw);
            let mut member = false;
            let mut k: usize = 0;
            while k < klasses.len()
                invariant
                    k <= klasses@.len(),
                    member == exists|j: int| 0 <= j < k && klasses@[j] == klass,
                decreases klasses@.len() - k,
            {
                if klasses[k] == klass {
                    member = true;
                }
                k = k + 1;
            }
            let mark = word_at(w, pos, 8);
            assert(mark & 3 == mark % 4) by (bit_vector);
            assert((mark >> 40u64 == 0) == (mark < 0x100_0000_0000)) by (bit_vector);
            let plausible = mark & 3 == 1 && mark >> 40u64 == 0;
            let ghost rest = spec_candidates(w@, main as int, self.base, kw as int, klasses@, need as int, pos + 8);
            if member && plausible {
                assert(klasses@.contains(klass));
                let ghost before = found@;
                found.push(self.base + pos as u64);
                assert(found@ + rest =~= before + (seq![(self.base + pos) as u64] + rest));
            } else {
                assert(!(klasses@.contains(word_of(w@, pos + 8, kw as int) as u64) && mark_shape_ok(word_of(w@, pos as int, 8))));
            }
            pos = pos + 8;
        }
        assert(found@ =~= goal);
        let chunk = vstd::slice::slice_subrange(w, 0, main);
        sha256_update(&mut self.hasher, chunk);
        assert(chunk@ =~= w@.take(main as int));
        self.count = self.count + found.len() as u64;
        self.base = self.base + main as u64;
        found
    }

    /// The capture size, its hexadecimal SHA-256 and the number of candidates.
    pub fn finish(self) -> (r: (u64, String, u64))
        requires
            self.wf(),
        ensures
            r.0 == self.capture_size(),
            r.1@ == spec_hex_bytes(sha256(self.hashed())),
            r.2 == self.candidates_seen(),
    {
        let d = sha256_finish(self.hasher);
        (self.size, hex_bytes(d.as_slice()), self.count)
    }
}


/// The counter name of a decoded candidate: its rejection reason or its hash status.
pub open spec fn spec_label(d: DecodedView) -> Seq<char> {
    match d {
        DecodedView::Rejected(r) => r.spec_name(),
        DecodedView::Pair(p) => p.status.spec_name(),
    }
}

pub fn label(d: &Decoded) -> (r: &'static str)
    ensures
        r@ == spec_label(d@),
{
    match d {
        Decoded::Rejected(r) => r.name(),
        Decoded::Pair(p) => p.status.name(),
    }
}

/// The extra counter a String stream bumps for a decoded pair it does not emit: a hash
/// mismatch, a missing hash when hashes are required, or fewer than `min_len` code units.
pub open spec fn spec_skip(p: PairView, min_len: u64, require_hash: bool) -> Option<Seq<char>> {
    if p.status == HashStatus::Mismatch {
        Some("skipped-hash-mismatch"@)
    } else if require_hash && p.status == HashStatus::NotCached {
        Some("skipped-unhashed"@)
    } else if (p.payload.len() as int / (1 + p.coder as int)) < min_len {
        Some("skipped-short"@)
    } else {
        None
    }
}

/// The counters of a String stream: candidates by rejection reason or hash status, skips,
/// and the number of emitted strings.
pub struct StringTally {
    counts: Counts,
    emitted: u64,
    records: u64,
}

impl StringTally {
    pub closed spec fn records(&self) -> nat {
        self.records as nat
    }

    /// The counters.
    pub closed spec fn tally(&self) -> Counts {
        self.counts
    }

    /// The number of emitted strings.
    pub closed spec fn emitted(&self) -> nat {
        self.emitted as nat
    }

    pub fn counts(&self) -> (c: &Counts)
        ensures
            *c == self.tally(),
    {
        &self.counts
    }

    pub fn emitted_count(&self) -> (n: u64)
        ensures
            n == self.emitted(),
    {
        self.emitted
    }

    pub closed spec fn wf(&self) -> bool {
        &&& self.counts.wf()
        &&& forall|n: Seq<char>| #[trigger] self.counts.get(n).0 <= self.records
        &&& self.emitted <= self.records
    }

    pub fn new() -> (t: StringTally)
        ensures
            t.wf(),
            t.records() == 0,
            t.emitted() == 0,
            t.tally().wf(),
            forall|n: Seq<char>| #[trigger] t.tally().get(n) == (0u64, 0u64),
            t.tally().view_entries().len() == 0,
    {
        let t = StringTally { counts: Counts::new(), emitted: 0, records: 0 };
        assert forall|n: Seq<char>| #[trigger] t.counts.get(n) == (0u64, 0u64) by {
            assert(!(exists|i: int| #[trigger] crate::counts::named_at(t.counts.view_entries(), n, i)));
        }
        t
    }

    /// Counts one decoded candidate of a String stream; returns whether it is emitted.
    pub fn record(&mut self, d: &Decoded, min_len: u64, require_hash: bool) -> (emit: bool)
        requires
            old(self).wf(),
            old(self).records() < u64::MAX,
        ensures
            final(self).wf(),
            final(self).records() == old(self).records() + 1,
            emit == (d@ matches DecodedView::Pair(p) && spec_skip(p, min_len, require_hash) is None),
            final(self).emitted() == old(self).emitted() + if emit { 1int } else { 0int },
            final(self).tally().wf(),
            forall|n: Seq<char>| #[trigger] final(self).tally().get(n).0 == old(self).tally().get(n).0
                + (if n == spec_label(d@) { 1int } else { 0int })
                + (if (d@ matches DecodedView::Pair(p) && spec_skip(p, min_len, require_hash) == Some(n)) { 1int } else { 0int }),
            forall|n: Seq<char>| #[trigger] final(self).tally().get(n).1 == old(self).tally().get(n).1,
    {
        let ghost before = self.counts;
        self.counts.bump(label(d));
        self.records = self.records + 1;
        match d {
            Decoded::Rejected(_) => {
                false
            },
            Decoded::Pair(p) => {
                let skip: Option<&'static str> = if p.status == HashStatus::Mismatch {
                    Some("skipped-hash-mismatch")
                } else if require_hash && p.status == HashStatus::NotCached {
                    Some("skipped-unhashed")
                } else if (p.units() as u64) < min_len {
                    Some("skipped-short")
                } else {
                    None
                };
                match skip {
                    Some(name) => {
                        assert(spec_skip(p@, min_len, require_hash) == Some(name@));
                        assert(name@ != spec_label(d@)) by {
                            reveal_strlit("skipped-hash-mismatch");
                            reveal_strlit("skipped-unhashed");
                            reveal_strlit("skipped-short");
                            reveal_strlit("not-cached");
                            reveal_strlit("mismatch");
                            reveal_strlit("zero-hash-match");
                            reveal_strlit("match");
                            assert(name@[0] == 's');
                            assert(p.status.spec_name()[0] != 's');
                        }
                        self.counts.bump(name);
                        false
                    },
                    None => {
                        self.emitted = self.emitted + 1;
                        true
                    },
                }
            },
        }
    }
}

/// The deterministic SplitMix64 generator of binding verification.
#[derive(Debug, Clone, Copy)]
pub struct Rng {
    pub state: u64,
}

/// The rejection-sampling bound of `below(n)`: `2^64 mod n`.
pub open spec fn spec_threshold(n: u64) -> u64 {
    ((u64::MAX - n + 1) % (n as int)) as u64
}

/// `below(n)` from `state`: the first output at or above the threshold, reduced mod `n`,
/// giving up after `fuel` further draws.
pub open spec fn spec_below(state: u64, n: u64, fuel: nat) -> (u64, u64)
    decreases fuel,
{
    let s1 = advance(state);
    let x = mix(s1);
    if x >= spec_threshold(n) || fuel == 0 {
        (s1, (x % n) as u64)
    } else {
        spec_below(s1, n, (fuel - 1) as nat)
    }
}

impl Rng {
    pub fn next(&mut self) -> (x: u64)
        ensures
            final(self).state == advance(old(self).state),
            x == mix(final(self).state),
    {
        self.state = self.state.wrapping_add(0x9e3779b97f4a7c15u64);
        let mut z = self.state;
        z = (z ^ (z >> 30u64)).wrapping_mul(0xbf58476d1ce4e5b9u64);
        z = (z ^ (z >> 27u64)).wrapping_mul(0x94d049bb133111ebu64);
        z ^ (z >> 31u64)
    }

    /// A value below `n` by rejection sampling (unbiased over the generator's outputs).
    pub fn below(&mut self, n: u64) -> (r: u64)
        requires
            n > 0,
        ensures
            (final(self).state, r) == spec_below(old(self).state, n, u64::MAX as nat),
            r < n,
    {
        let threshold = (u64::MAX - n + 1) % n;
        let mut fuel: u64 = u64::MAX;
        loop
            invariant
                n > 0,
                threshold == spec_threshold(n),
                spec_below(self.state, n, fuel as nat) == spec_below(old(self).state, n, u64::MAX as nat),
            decreases fuel,
        {
            let x = self.next();
            if x >= threshold || fuel == 0 {
                return x % n;
            }
            fuel = fuel - 1;
        }
    }
}

/// The state of a uniform reservoir sample over offered offsets.
pub struct ReservoirView {
    pub selected: Seq<u64>,
    pub seen: u64,
    pub rng: u64,
    pub samples: nat,
}

/// The reservoir after one more offer (Algorithm R): fill up to `samples`, then replace the
/// slot drawn below the number seen when it is a sample slot.
pub open spec fn spec_offer(v: ReservoirView, offset: u64) -> ReservoirView {
    let seen = (v.seen + 1) as u64;
    if v.selected.len() < v.samples {
        ReservoirView { selected: v.selected.push(offset), seen, ..v }
    } else {
        let (state, slot) = spec_below(v.rng, seen, u64::MAX as nat);
        ReservoirView {
            selected: if slot < v.samples { v.selected.update(slot as int, offset) } else { v.selected },
            seen,
            rng: state,
            samples: v.samples,
        }
    }
}

/// The reservoir after offering each of `offsets` in turn.
pub open spec fn offer_all(v: ReservoirView, offsets: Seq<u64>) -> ReservoirView
    decreases offsets.len(),
{
    if offsets.len() == 0 {
        v
    } else {
        spec_offer(offer_all(v, offsets.drop_last()), offsets.last())
    }
}

/// Law: while no more candidates than samples were offered to a fresh reservoir, it holds
/// every one of them, in offer order; when fewer candidates exist, all are checked.
pub proof fn law_reservoir_keeps_all_when_few(samples: nat, seed: u64, offsets: Seq<u64>)
    requires
        offsets.len() <= samples,
    ensures
        offer_all(ReservoirView { selected: Seq::empty(), seen: 0, rng: seed, samples }, offsets).selected == offsets,
        offer_all(ReservoirView { selected: Seq::empty(), seen: 0, rng: seed, samples }, offsets).rng == seed,
        offer_all(ReservoirView { selected: Seq::empty(), seen: 0, rng: seed, samples }, offsets).samples == samples,
    decreases offsets.len(),
{
    let v0 = ReservoirView { selected: Seq::empty(), seen: 0, rng: seed, samples };
    if offsets.len() > 0 {
        law_reservoir_keeps_all_when_few(samples, seed, offsets.drop_last());
        let prev = offer_all(v0, offsets.drop_last());
        assert(prev.selected.len() < samples);
        assert(offer_all(v0, offsets) == spec_offer(prev, offsets.last()));
        assert(offsets.drop_last().push(offsets.last()) =~= offsets);
    } else {
        assert(offsets =~= Seq::<u64>::empty());
    }
}

/// Law: a fresh reservoir offered `offsets` has seen each of them, holds as many as it has
/// slots (all of them when fewer were offered), and holds only offered offsets.
pub proof fn law_reservoir_draws_from_offers(samples: nat, seed: u64, offsets: Seq<u64>)
    requires
        offsets.len() < u64::MAX,
    ensures
        ({
            let v = offer_all(ReservoirView { selected: Seq::empty(), seen: 0, rng: seed, samples }, offsets);
            &&& v.seen == offsets.len()
            &&& v.samples == samples
            &&& v.selected.len() == if offsets.len() < samples { offsets.len() } else { samples }
            &&& forall|i: int| 0 <= i < v.selected.len() ==> offsets.contains(#[trigger] v.selected[i])
        }),
    decreases offsets.len(),
{
    let v0 = ReservoirView { selected: Seq::empty(), seen: 0, rng: seed, samples };
    if offsets.len() > 0 {
        let rest = offsets.drop_last();
        law_reservoir_draws_from_offers(samples, seed, rest);
        let prev = offer_all(v0, rest);
        let v = offer_all(v0, offsets);
        assert(v == spec_offer(prev, offsets.last()));
        assert forall|i: int| 0 <= i < v.selected.len() implies offsets.contains(#[trigger] v.selected[i]) by {
            if v.selected[i] == offsets.last() {
                assert(offsets[offsets.len() - 1] == offsets.last());
            } else {
                assert(prev.selected[i] == v.selected[i]);
                assert(rest.contains(prev.selected[i]));
                let k = choose|k: int| 0 <= k < rest.len() && rest[k] == prev.selected[i];
                assert(offsets[k] == rest[k]);
            }
        }
    }
}

/// A uniform sample of header candidates, taken before any of them is resolved.
pub struct Reservoir {
    selected: Vec<u64>,
    seen: u64,
    rng: Rng,
    samples: usize,
}

impl View for Reservoir {
    type V = ReservoirView;

    closed spec fn view(&self) -> ReservoirView {
        ReservoirView { selected: self.selected@, seen: self.seen, rng: self.rng.state, samples: self.samples as nat }
    }
}

impl Reservoir {
    pub closed spec fn wf(&self) -> bool {
        &&& self.selected@.len() <= self.samples
        &&& 1 <= self.samples <= MAX_SAMPLES
    }

    /// A reservoir of `samples` slots whose generator starts at `seed`.
    pub fn new(samples: usize, seed: u64) -> (r: Result<Reservoir, Error>)
        ensures
            !(1 <= samples <= MAX_SAMPLES) ==> r == Err::<Reservoir, Error>(Error::SamplesRange),
            (1 <= samples <= MAX_SAMPLES) ==> (r matches Ok(x) && x.wf()
                && x@ == (ReservoirView { selected: Seq::empty(), seen: 0, rng: seed, samples: samples as nat })),
    {
        if !(1 <= samples && samples <= MAX_SAMPLES) {
            return Err(Error::SamplesRange);
        }
        let r = Reservoir { selected: Vec::new(), seen: 0, rng: Rng { state: seed }, samples };
        assert(r@.selected =~= Seq::<u64>::empty());
        Ok(r)
    }

    /// Offers one candidate offset.
    pub fn offer(&mut self, offset: u64)
        requires
            old(self).wf(),
            old(self)@.seen < u64::MAX,
        ensures
            final(self).wf(),
            final(self)@ == spec_offer(old(self)@, offset),
    {
        self.seen = self.seen + 1;
        if self.selected.len() < self.samples {
            self.selected.push(offset);
        } else {
            let slot = self.rng.below(self.seen);
            if slot < self.samples as u64 {
                self.selected.set(slot as usize, offset);
            }
        }
    }

    /// The number of candidates offered.
    pub fn seen(&self) -> (n: u64)
        ensures
            n == self@.seen,
    {
        self.seen
    }

    /// The sampled offsets in ascending order.
    pub fn sorted(&self) -> (v: Vec<u64>)
        ensures
            v@ == self@.selected.sort_by(gap_leq()),
    {
        sort_gaps(&self.selected)
    }
}

/// Confirmed (nonzero or zero-hash matches) and compared (also mismatches) cached pairs.
pub fn confirmation(counts: &Counts) -> (r: (u64, u64))
    requires
        counts.wf(),
        counts.get("match"@).0 + counts.get("zero-hash-match"@).0 + counts.get("mismatch"@).0 <= u64::MAX,
    ensures
        r.0 == counts.get("match"@).0 + counts.get("zero-hash-match"@).0,
        r.1 == r.0 + counts.get("mismatch"@).0,
{
    let matched = counts.lookup("match").0 + counts.lookup("zero-hash-match").0;
    (matched, matched + counts.lookup("mismatch").0)
}

} // verus!
