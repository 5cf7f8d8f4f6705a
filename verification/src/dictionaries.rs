//! Node-prefix String key/value candidates: each node header is judged once, from its key
//! and value Strings and its next link; never a claim of live or owned maps.
use vstd::prelude::*;
use crate::bytes::{le_value, mark_shape_ok, word_at, mark_ok};
use crate::error::Error;
use crate::raw_strings::{Bindings, BindingsView, Decoded, DecodedView, HashStatus, PairView, Pair, array_base};
use crate::scanner::word_of;
use crate::spacing::{sort_gaps, gap_leq};
use crate::text::{chars_of, string_from_chars, hex_literal, spec_hex_literal};
use crate::counts::Counts;

verus! {

/// At most this many node identities.
pub const MAX_NODE_KLASSES: usize = 64;

/// A valid class identity for the header width.
pub open spec fn valid_klass(k: u64, narrow: bool) -> bool {
    k != 0 && (narrow ==> k <= 0xffff_ffff) && (!narrow ==> k % 8 == 0)
}

/// `v` strictly increases.
pub open spec fn strictly_sorted(v: Seq<u64>) -> bool {
    forall|i: int, j: int| 0 <= i < j < v.len() ==> v[i] < v[j]
}

/// Sorts and deduplicates node identities and checks them: 1..64 distinct identities,
/// each valid for the header width.
pub fn node_klasses(ids: &Vec<u64>, narrow: bool) -> (r: Result<Vec<u64>, Error>)
    ensures
        match r {
            Ok(v) => strictly_sorted(v@) && v@.to_set() == ids@.to_set() && 1 <= v@.len() <= MAX_NODE_KLASSES
                && forall|i: int| 0 <= i < v@.len() ==> valid_klass(#[trigger] v@[i], narrow),
            Err(e) => e == Error::NodeKlasses && (ids@.len() == 0 || (exists|k: u64| ids@.contains(k) && !valid_klass(k, narrow))
                || ids@.to_set().len() > MAX_NODE_KLASSES),
        },
{
    let sorted = sort_gaps(ids);
    proof {
        ids@.lemma_sort_by_ensures(gap_leq());
    }
    let mut v: Vec<u64> = Vec::new();
    let mut i: usize = 0;
    while i < sorted.len()
        invariant
            i <= sorted@.len(),
            sorted@ == ids@.sort_by(gap_leq()),
            sorted@.to_multiset() == ids@.to_multiset(),
            vstd::relations::sorted_by(sorted@, gap_leq()),
            strictly_sorted(v@),
            v@.to_set() == sorted@.take(i as int).to_set(),
            i > 0 ==> v@.len() > 0 && v@.last() == sorted@[i - 1],
            v@.len() <= i,
        decreases sorted@.len() - i,
    {
        let x = sorted[i];
        let ghost before = v@;
        proof {
            assert(sorted@.take(i + 1) =~= sorted@.take(i as int).push(x));
            sorted@.take(i as int).lemma_push_to_set_commute(x);
        }
        if v.len() == 0 || v[v.len() - 1] != x {
            proof {
                if i > 0 {
                    assert(gap_leq()(sorted@[i - 1], sorted@[i as int]));
                }
            }
            v.push(x);
            proof {
                before.lemma_push_to_set_commute(x);
            }
        } else {
            proof {
                assert(v@.to_set().contains(x)) by {
                    assert(v@[v@.len() - 1] == x);
                }
                assert(v@.to_set().insert(x) =~= v@.to_set());
            }
        }
        i = i + 1;
    }
    proof {
        assert(sorted@.take(sorted@.len() as int) =~= sorted@);
        assert(sorted@.to_set() =~= ids@.to_set()) by {
            assert forall|y: u64| sorted@.to_set().contains(y) <==> ids@.to_set().contains(y) by {
                assert(sorted@.to_multiset().count(y) == ids@.to_multiset().count(y));
                if sorted@.contains(y) {
                    sorted@.to_multiset_ensures();
                    ids@.to_multiset_ensures();
                }
                if ids@.contains(y) {
                    sorted@.to_multiset_ensures();
                    ids@.to_multiset_ensures();
                }
            }
        }
        lemma_distinct_len(v@);
        assert(v@.to_set() == ids@.to_set());
    }
    if v.len() == 0 || v.len() > MAX_NODE_KLASSES {
        proof {
            if v@.len() == 0 && ids@.len() > 0 {
                assert(ids@.to_set().contains(ids@[0]));
                assert(v@.to_set().contains(ids@[0]));
            }
        }
        return Err(Error::NodeKlasses);
    }
    let mut j: usize = 0;
    while j < v.len()
        invariant
            j <= v@.len(),
            v@.to_set() == ids@.to_set(),
            forall|k: int| 0 <= k < j ==> valid_klass(#[trigger] v@[k], narrow),
        decreases v@.len() - j,
    {
        let k = v[j];
        if k == 0 || (narrow && k > 0xffff_ffff) || (!narrow && k % 8 != 0) {
            proof {
                assert(v@.contains(k)) by {
                    assert(v@[j as int] == k);
                }
                assert(v@.to_set().contains(k));
                assert(ids@.to_set().contains(k));
                assert(ids@.contains(k));
                assert(!valid_klass(k, narrow));
            }
            return Err(Error::NodeKlasses);
        }
        j = j + 1;
    }
    Ok(v)
}

proof fn lemma_distinct_len(v: Seq<u64>)
    requires
        strictly_sorted(v),
    ensures
        v.to_set().len() == v.len(),
{
    assert(v.no_duplicates()) by {
        assert forall|i: int, j: int| 0 <= i < v.len() && 0 <= j < v.len() && i != j implies v[i] != v[j] by {
            if i < j {
                assert(v[i] < v[j]);
            } else {
                assert(v[j] < v[i]);
            }
        }
    }
    v.unique_seq_to_set();
}


/// The node hash models that a stored hash can match.
#[derive(Debug, Clone, Copy, PartialEq, Eq)]
pub enum HashModel {
    /// The stored hash is the key's spread hash, with the sign bit clear.
    HashMapOrConcurrent,
    /// The stored hash is the key's spread hash, with the sign bit set.
    HashMap,
    /// The stored hash is the key's spread hash with the sign bit cleared.
    ConcurrentSignCleared,
}

impl HashModel {
    pub open spec fn spec_name(self) -> Seq<char> {
        match self {
            HashModel::HashMapOrConcurrent => "hashmap-or-concurrent-compatible"@,
            HashModel::HashMap => "hashmap-compatible"@,
            HashModel::ConcurrentSignCleared => "concurrent-sign-cleared-compatible"@,
        }
    }

    pub fn name(self) -> (r: &'static str)
        ensures
            r@ == self.spec_name(),
    {
        match self {
            HashModel::HashMapOrConcurrent => "hashmap-or-concurrent-compatible",
            HashModel::HashMap => "hashmap-compatible",
            HashModel::ConcurrentSignCleared => "concurrent-sign-cleared-compatible",
        }
    }
}

/// What a node's next link points at.
#[derive(Debug, Clone, Copy, PartialEq, Eq)]
pub enum NextState {
    Null,
    SelfReference,
    BoundNodePrefix,
    UnresolvedOrOtherHeader,
    Unresolved,
}

impl NextState {
    pub open spec fn spec_name(self) -> Seq<char> {
        match self {
            NextState::Null => "null"@,
            NextState::SelfReference => "self-reference"@,
            NextState::BoundNodePrefix => "bound-node-prefix"@,
            NextState::UnresolvedOrOtherHeader => "unresolved-or-other-header"@,
            NextState::Unresolved => "unresolved"@,
        }
    }

    pub fn name(self) -> (r: &'static str)
        ensures
            r@ == self.spec_name(),
    {
        match self {
            NextState::Null => "null",
            NextState::SelfReference => "self-reference",
            NextState::BoundNodePrefix => "bound-node-prefix",
            NextState::UnresolvedOrOtherHeader => "unresolved-or-other-header",
            NextState::Unresolved => "unresolved",
        }
    }
}

/// The model of a stored node hash against the key's String hash: the spread hash
/// `h ^ (h >> 16)`, or it with the sign bit cleared; `None` when neither matches.
pub open spec fn spec_hash_model(stored: u32, computed: u32) -> Option<HashModel> {
    let spread = computed ^ (computed >> 16u32);
    if stored == spread {
        if spread & 0x8000_0000u32 == 0 { Some(HashModel::HashMapOrConcurrent) } else { Some(HashModel::HashMap) }
    } else if stored == spread & 0x7fff_ffffu32 {
        Some(HashModel::ConcurrentSignCleared)
    } else {
        None
    }
}

pub fn hash_model(stored: u32, computed: u32) -> (r: Option<HashModel>)
    ensures
        r == spec_hash_model(stored, computed),
{
    let spread = computed ^ (computed >> 16u32);
    if stored == spread {
        if spread & 0x8000_0000u32 == 0 {
            Some(HashModel::HashMapOrConcurrent)
        } else {
            Some(HashModel::HashMap)
        }
    } else if stored == spread & 0x7fff_ffffu32 {
        Some(HashModel::ConcurrentSignCleared)
    } else {
        None
    }
}

/// The node of `size` bytes at `offset` overlaps the String header or the byte array of a pair.
pub open spec fn spec_overlaps_pair(offset: u64, size: u64, p: PairView, narrow: bool) -> bool {
    let overlap = |at: int, n: int| offset < at + n && at < offset + size;
    overlap(p.offset as int, 32) || overlap(p.target as int, array_base(narrow) + p.payload.len())
}

pub fn overlaps_pair(offset: u64, size: u64, p: &Pair, narrow: bool) -> (r: bool)
    ensures
        r == spec_overlaps_pair(offset, size, p@, narrow),
{
    let o = offset as u128;
    let n = size as u128;
    let base: u128 = if narrow {
        16
    } else {
        24
    };
    let a = p.offset as u128;
    let t = p.target as u128;
    let len = p.payload.len() as u128;
    (o < a + 32 && a < o + n) || (o < t + base + len && t < o + n)
}

/// A node candidate worth a row.
#[derive(Debug, Clone, Copy, PartialEq, Eq)]
pub struct NodeRecord {
    pub klass: u64,
    pub hash_model: HashModel,
    pub next_raw: u64,
    pub next: Option<u64>,
    pub next_state: NextState,
}

/// The next step of judging a node: a String to decode or a header to read, a counter for a
/// dropped node, or the node's record.
#[derive(Debug)]
pub enum NodeStep {
    DecodeKey(u64),
    DecodeValue(u64),
    ReadNext(u64),
    Count(String),
    Emit(NodeRecord),
}

/// The mathematical form of [`NodeStep`].
pub enum NodeStepView {
    DecodeKey(u64),
    DecodeValue(u64),
    ReadNext(u64),
    Count(Seq<char>),
    Emit(NodeRecord),
}

impl View for NodeStep {
    type V = NodeStepView;

    open spec fn view(&self) -> NodeStepView {
        match self {
            NodeStep::DecodeKey(t) => NodeStepView::DecodeKey(*t),
            NodeStep::DecodeValue(t) => NodeStepView::DecodeValue(*t),
            NodeStep::ReadNext(t) => NodeStepView::ReadNext(*t),
            NodeStep::Count(s) => NodeStepView::Count(s@),
            NodeStep::Emit(r) => NodeStepView::Emit(*r),
        }
    }
}

/// A reference resolved under the hypothesis to an 8-aligned offset.
pub open spec fn aligned_target(b: BindingsView, raw: u64) -> Option<u64> {
    match b.model.spec_target(raw) {
        Some(t) if t % 8 == 0 => Some(t),
        _ => None,
    }
}

/// Judges the node at `offset` from its bytes and what was decoded or read so far: the key
/// String (decoded, not a hash mismatch, not overlapping the node), the node's stored hash
/// against the key's spread hash, a non-null value String of the same quality, the hash
/// requirement, and finally the next link.
pub open spec fn spec_node_step(b: BindingsView, klasses: Seq<u64>, require_hash: bool, offset: u64, node: Seq<u8>,
    key: Option<DecodedView>, value: Option<DecodedView>, next: Option<Option<Seq<u8>>>) -> NodeStepView {
    let kw: int = if b.narrow { 4 } else { 8 };
    let ka = array_base(b.narrow) as int;
    let size = (ka + 24) as u64;
    let raw_key = word_of(node, ka, 8) as u64;
    let raw_value = word_of(node, ka + 8, 8) as u64;
    let next_raw = word_of(node, ka + 16, 8) as u64;
    let stored = word_of(node, 8 + kw, 4) as u32;
    match key {
        None => match aligned_target(b, raw_key) {
            None => NodeStepView::Count("key-unresolved-reference"@),
            Some(t) => NodeStepView::DecodeKey(t),
        },
        Some(DecodedView::Rejected(r)) => NodeStepView::Count("key-"@ + r.spec_name()),
        Some(DecodedView::Pair(k)) => if k.status == HashStatus::Mismatch || spec_overlaps_pair(offset, size, k, b.narrow) {
            NodeStepView::Count("key-hash-or-overlap-invalid"@)
        } else {
            match spec_hash_model(stored, k.computed) {
                None => NodeStepView::Count("node-spread-hash-mismatch"@),
                Some(model) => if b.model.spec_is_null(raw_value) {
                    NodeStepView::Count("null-value"@)
                } else {
                    match value {
                        None => match aligned_target(b, raw_value) {
                            None => NodeStepView::Count("value-unresolved-reference"@),
                            Some(t) => NodeStepView::DecodeValue(t),
                        },
                        Some(DecodedView::Rejected(r)) => NodeStepView::Count("value-"@ + r.spec_name()),
                        Some(DecodedView::Pair(v)) => if v.status == HashStatus::Mismatch || spec_overlaps_pair(offset, size, v, b.narrow) {
                            NodeStepView::Count("value-hash-or-overlap-invalid"@)
                        } else if require_hash && (k.status == HashStatus::NotCached || v.status == HashStatus::NotCached) {
                            NodeStepView::Count("skipped-unhashed-pair"@)
                        } else {
                            let target = b.model.spec_target(next_raw);
                            let record = |s: NextState| NodeRecord {
                                klass: word_of(node, 8, kw) as u64,
                                hash_model: model,
                                next_raw,
                                next: target,
                                next_state: s,
                            };
                            if b.model.spec_is_null(next_raw) {
                                NodeStepView::Emit(record(NextState::Null))
                            } else if target == Some(offset) {
                                NodeStepView::Emit(record(NextState::SelfReference))
                            } else {
                                match target {
                                    Some(t) if t % 8 == 0 => match next {
                                        None => NodeStepView::ReadNext(t),
                                        Some(Some(h)) => if h.len() >= 8 + kw && mark_shape_ok(word_of(h, 0, 8))
                                            && klasses.contains(word_of(h, 8, kw) as u64) {
                                            NodeStepView::Emit(record(NextState::BoundNodePrefix))
                                        } else {
                                            NodeStepView::Emit(record(NextState::UnresolvedOrOtherHeader))
                                        },
                                        Some(None) => NodeStepView::Emit(record(NextState::UnresolvedOrOtherHeader)),
                                    },
                                    _ => NodeStepView::Emit(record(NextState::Unresolved)),
                                }
                            }
                        },
                    }
                },
            }
        },
    }
}

/// `prefix` followed by `name`.
pub fn prefixed(prefix: &str, name: &str) -> (s: String)
    ensures
        s@ == prefix@ + name@,
{
    let mut v = chars_of(prefix);
    let mut w = chars_of(name);
    v.append(&mut w);
    string_from_chars(v.as_slice())
}

fn contains_u64(v: &Vec<u64>, x: u64) -> (r: bool)
    ensures
        r == v@.contains(x),
{
    let mut i: usize = 0;
    while i < v.len()
        invariant
            i <= v@.len(),
            forall|k: int| 0 <= k < i ==> v@[k] != x,
        decreases v@.len() - i,
    {
        if v[i] == x {
            return true;
        }
        i = i + 1;
    }
    false
}

/// The next step of judging a node (see [`spec_node_step`]). The node bytes span the node
/// prefix; the next header, when read, spans a node prefix too, or is absent when it lies
/// outside the capture.
pub fn node_step(b: &Bindings, klasses: &Vec<u64>, require_hash: bool, offset: u64, node: &[u8],
    key: Option<&Decoded>, value: Option<&Decoded>, next: Option<Option<&[u8]>>) -> (r: NodeStep)
    requires
        node@.len() == array_base(b@.narrow) + 24,
    ensures
        r@ == spec_node_step(b@, klasses@, require_hash, offset, node@,
            match key { Some(d) => Some(d@), None => None },
            match value { Some(d) => Some(d@), None => None },
            match next { Some(Some(h)) => Some(Some(h@)), Some(None) => Some(None::<Seq<u8>>), None => None }),
{
    let kw = b.kw();
    let narrow = b.narrow();
    let ka: usize = if narrow {
        16
    } else {
        24
    };
    let size: u64 = ka as u64 + 24;
    let model = b.model();
    let raw_key = word_at(node, ka, 8);
    let raw_value = word_at(node, ka + 8, 8);
    let next_raw = word_at(node, ka + 16, 8);
    let stored = word_at(node, 8 + kw, 4) as u32;
    let k = match key {
        None => {
            return match model.target(raw_key) {
                Some(t) => if t % 8 == 0 {
                    NodeStep::DecodeKey(t)
                } else {
                    NodeStep::Count("key-unresolved-reference".to_owned())
                },
                None => NodeStep::Count("key-unresolved-reference".to_owned()),
            };
        },
        Some(Decoded::Rejected(r)) => {
            return NodeStep::Count(prefixed("key-", r.name()));
        },
        Some(Decoded::Pair(k)) => k,
    };
    if matches!(k.status, HashStatus::Mismatch) || overlaps_pair(offset, size, k, narrow) {
        return NodeStep::Count("key-hash-or-overlap-invalid".to_owned());
    }
    let hm = match hash_model(stored, k.computed) {
        None => {
            return NodeStep::Count("node-spread-hash-mismatch".to_owned());
        },
        Some(m) => m,
    };
    if model.is_null(raw_value) {
        return NodeStep::Count("null-value".to_owned());
    }
    let v = match value {
        None => {
            return match model.target(raw_value) {
                Some(t) => if t % 8 == 0 {
                    NodeStep::DecodeValue(t)
                } else {
                    NodeStep::Count("value-unresolved-reference".to_owned())
                },
                None => NodeStep::Count("value-unresolved-reference".to_owned()),
            };
        },
        Some(Decoded::Rejected(r)) => {
            return NodeStep::Count(prefixed("value-", r.name()));
        },
        Some(Decoded::Pair(v)) => v,
    };
    if matches!(v.status, HashStatus::Mismatch) || overlaps_pair(offset, size, v, narrow) {
        return NodeStep::Count("value-hash-or-overlap-invalid".to_owned());
    }
    if require_hash && (matches!(k.status, HashStatus::NotCached) || matches!(v.status, HashStatus::NotCached)) {
        return NodeStep::Count("skipped-unhashed-pair".to_owned());
    }
    let target = model.target(next_raw);
    let klass = word_at(node, 8, kw);
    let state = if model.is_null(next_raw) {
        NextState::Null
    } else if target == Some(offset) {
        NextState::SelfReference
    } else {
        match target {
            Some(t) => if t % 8 == 0 {
                match next {
                    None => {
                        return NodeStep::ReadNext(t);
                    },
                    Some(Some(h)) => {
                        if h.len() >= 8 + kw && mark_ok(h) && contains_u64(klasses, word_at(h, 8, kw)) {
                            NextState::BoundNodePrefix
                        } else {
                            NextState::UnresolvedOrOtherHeader
                        }
                    },
                    Some(None) => NextState::UnresolvedOrOtherHeader,
                }
            } else {
                NextState::Unresolved
            },
            None => NextState::Unresolved,
        }
    };
    NodeStep::Emit(NodeRecord { klass, hash_model: hm, next_raw, next: target, next_state: state })
}

/// The counters of a dictionary stream: why each node header was counted, how many pairs
/// were emitted, and emitted pairs per node class (as a `0x` literal).
#[derive(Debug)]
pub struct DictionaryTally {
    counts: Counts,
    by_klass: Counts,
    emitted: u64,
    nodes: u64,
}

impl DictionaryTally {
    pub closed spec fn tally(&self) -> Counts {
        self.counts
    }

    pub closed spec fn klass_tally(&self) -> Counts {
        self.by_klass
    }

    pub closed spec fn emitted(&self) -> nat {
        self.emitted as nat
    }

    /// Node headers settled so far.
    pub closed spec fn nodes(&self) -> nat {
        self.nodes as nat
    }

    pub closed spec fn wf(&self) -> bool {
        &&& self.counts.wf()
        &&& self.by_klass.wf()
        &&& forall|n: Seq<char>| #[trigger] self.counts.get(n).0 <= self.nodes
        &&& forall|n: Seq<char>| #[trigger] self.by_klass.get(n).0 <= self.nodes
        &&& self.emitted <= self.nodes
    }

    pub fn new() -> (t: DictionaryTally)
        ensures
            t.wf(),
            t.nodes() == 0,
            t.emitted() == 0,
            t.tally().view_entries().len() == 0,
            t.klass_tally().view_entries().len() == 0,
    {
        DictionaryTally { counts: Counts::new(), by_klass: Counts::new(), emitted: 0, nodes: 0 }
    }

    /// Counts a node header settled without a pair, under `name`.
    pub fn count(&mut self, name: &str)
        requires
            old(self).wf(),
            old(self).nodes() < u64::MAX,
        ensures
            final(self).wf(),
            final(self).nodes() == old(self).nodes() + 1,
            final(self).emitted() == old(self).emitted(),
            final(self).tally().get(name@) == ((old(self).tally().get(name@).0 + 1) as u64, old(self).tally().get(name@).1),
            forall|n: Seq<char>| n != name@ ==> #[trigger] final(self).tally().get(n) == old(self).tally().get(n),
            final(self).klass_tally() == old(self).klass_tally(),
    {
        let ghost c0 = self.counts;
        self.counts.bump(name);
        self.nodes = self.nodes + 1;
        proof {
            assert forall|n: Seq<char>| #[trigger] self.counts.get(n).0 <= self.nodes by {
                assert(c0.get(n).0 <= self.nodes - 1);
            }
        }
    }

    /// Counts an emitted pair of a node of class `klass`.
    pub fn emit(&mut self, klass: u64)
        requires
            old(self).wf(),
            old(self).nodes() < u64::MAX,
        ensures
            final(self).wf(),
            final(self).nodes() == old(self).nodes() + 1,
            final(self).emitted() == old(self).emitted() + 1,
            final(self).tally().get("emitted"@) == ((old(self).tally().get("emitted"@).0 + 1) as u64, old(self).tally().get("emitted"@).1),
            forall|n: Seq<char>| n != "emitted"@ ==> #[trigger] final(self).tally().get(n) == old(self).tally().get(n),
            final(self).klass_tally().get(spec_hex_literal(klass))
                == ((old(self).klass_tally().get(spec_hex_literal(klass)).0 + 1) as u64, old(self).klass_tally().get(spec_hex_literal(klass)).1),
            forall|n: Seq<char>| n != spec_hex_literal(klass) ==> #[trigger] final(self).klass_tally().get(n) == old(self).klass_tally().get(n),
    {
        let ghost c0 = self.counts;
        let ghost k0 = self.by_klass;
        self.counts.bump("emitted");
        let name = hex_literal(klass);
        self.by_klass.bump(name.as_str());
        self.nodes = self.nodes + 1;
        self.emitted = self.emitted + 1;
        proof {
            assert forall|n: Seq<char>| #[trigger] self.counts.get(n).0 <= self.nodes by {
                assert(c0.get(n).0 <= self.nodes - 1);
            }
            assert forall|n: Seq<char>| #[trigger] self.by_klass.get(n).0 <= self.nodes by {
                assert(k0.get(n).0 <= self.nodes - 1);
            }
        }
    }

    /// The counters by reason.
    pub fn counts(&self) -> (c: &Counts)
        ensures
            *c == self.tally(),
    {
        &self.counts
    }

    /// The emitted pairs per node class.
    pub fn by_klass(&self) -> (c: &Counts)
        ensures
            *c == self.klass_tally(),
    {
        &self.by_klass
    }

    /// The number of node headers settled.
    pub fn settled(&self) -> (n: u64)
        ensures
            n == self.nodes(),
    {
        self.nodes
    }

    /// The number of emitted pairs.
    pub fn emitted_count(&self) -> (n: u64)
        ensures
            n == self.emitted(),
    {
        self.emitted
    }
}

} // verus!
