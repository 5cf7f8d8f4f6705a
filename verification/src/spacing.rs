//! Bounded, whole-stream reservoir samples of consecutive hit gaps per header group.
//! Periodicity is a structural observation, never a proof of JVM metadata.
use vstd::prelude::*;
use vstd::relations::{sorted_by, total_ordering};
use crate::analysis::{detection, spec_suggestion, Suggestion, VoteDetection};
use crate::text::{chars_of, push_hex, spec_hex_literal, str_eq, string_from_chars};

verus! {

broadcast use vstd::seq_lib::group_to_multiset_ensures;

/// At most this many groups are tracked.
pub const MAX_GROUPS: usize = 4096;
/// Reservoir size: sampled consecutive gaps per group.
pub const SAMPLE_GAPS: usize = 256;
/// At most this many gap examples are reported per group.
pub const EXAMPLES: usize = 16;
/// A group needs this many sampled gaps before it can be classified.
pub const MIN_GAPS: usize = 32;

/// The two header-shape hypotheses: an 8-byte or a 4-byte class word.
#[derive(Debug, Clone, Copy, PartialEq, Eq)]
pub enum Kind {
    Wide,
    Narrow,
}

impl Kind {
    pub open spec fn spec_slot(self) -> u64 {
        match self {
            Kind::Wide => 0,
            Kind::Narrow => 1,
        }
    }

    pub fn slot(self) -> (r: u64)
        ensures
            r == self.spec_slot(),
    {
        match self {
            Kind::Wide => 0,
            Kind::Narrow => 1,
        }
    }

    pub fn name(self) -> (r: &'static str)
        ensures
            r@ == spec_kind_name(self),
    {
        match self {
            Kind::Wide => "wide",
            Kind::Narrow => "narrow",
        }
    }
}

/// The SplitMix64 output function.
pub open spec fn mix(z0: u64) -> u64 {
    let z1 = (z0 ^ (z0 >> 30u64)).wrapping_mul(0xbf58476d1ce4e5b9u64);
    let z2 = (z1 ^ (z1 >> 27u64)).wrapping_mul(0x94d049bb133111ebu64);
    z2 ^ (z2 >> 31u64)
}

/// The SplitMix64 state increment.
pub open spec fn advance(state: u64) -> u64 {
    state.wrapping_add(0x9e3779b97f4a7c15u64)
}

/// The mathematical state of a [`Group`].
pub struct GroupView {
    pub hits: u64,
    pub votes: u64,
    pub first: u64,
    pub last: u64,
    pub samples: Seq<(u64, u64)>,
    pub rng: u64,
}

/// One header group's hits, detection votes and reservoir of (gap, destination) samples.
/// Gaps are always between consecutive hits, never between sampled ones.
pub struct Group {
    hits: u64,
    votes: u64,
    first: u64,
    last: u64,
    samples: Vec<(u64, u64)>,
    rng: u64,
}

/// A group after one more hit at `offset` (Algorithm R with a deterministic SplitMix64).
pub open spec fn spec_observe(g: GroupView, offset: u64, vote: bool) -> GroupView {
    let base = GroupView {
        hits: (g.hits + 1) as u64,
        votes: (g.votes + if vote { 1u64 } else { 0u64 }) as u64,
        first: if g.hits == 0 { offset } else { g.first },
        last: offset,
        samples: g.samples,
        rng: g.rng,
    };
    if g.hits == 0 {
        base
    } else {
        let sample = ((offset - g.last) as u64, offset);
        if g.samples.len() < SAMPLE_GAPS {
            GroupView { samples: g.samples.push(sample), ..base }
        } else {
            let state = advance(g.rng);
            let slot = mix(state) % g.hits;
            GroupView {
                rng: state,
                samples: if slot < SAMPLE_GAPS as u64 {
                    g.samples.update(slot as int, sample)
                } else {
                    g.samples
                },
                ..base
            }
        }
    }
}

impl View for Group {
    type V = GroupView;

    closed spec fn view(&self) -> GroupView {
        GroupView {
            hits: self.hits,
            votes: self.votes,
            first: self.first,
            last: self.last,
            samples: self.samples@,
            rng: self.rng,
        }
    }
}

impl Group {
    /// The group's internal invariant: samples never exceed the reservoir and every
    /// sample is a gap ending at a hit inside the observed span.
    pub closed spec fn wf(&self) -> bool {
        &&& self.samples@.len() <= SAMPLE_GAPS
        &&& self.votes <= self.hits
        &&& self.hits == 0 ==> self.samples@.len() == 0
        &&& self.hits > 0 ==> self.first <= self.last
        &&& self.samples@.len() <= self.hits
        &&& self.hits > 0 ==> self.samples@.len() == (if self.hits - 1 < SAMPLE_GAPS { self.hits - 1 } else { SAMPLE_GAPS as int })
        &&& forall|i: int| 0 <= i < self.samples@.len() ==> {
            let s = #[trigger] self.samples@[i];
            &&& self.first + s.0 <= s.1 <= self.last
        }
    }

    /// An empty group whose sampler starts from `seed`.
    pub fn new(seed: u64) -> (g: Group)
        ensures
            g.wf(),
            g@ == (GroupView { hits: 0, votes: 0, first: 0, last: 0, samples: Seq::empty(), rng: seed }),
    {
        Group { hits: 0, votes: 0, first: 0, last: 0, samples: Vec::new(), rng: seed }
    }

    /// Records a hit at `offset`; offsets of one group never decrease.
    pub fn observe(&mut self, offset: u64, vote: bool)
        requires
            old(self).wf(),
            old(self)@.hits < u64::MAX,
            old(self)@.hits > 0 ==> offset >= old(self)@.last,
        ensures
            final(self).wf(),
            final(self)@ == spec_observe(old(self)@, offset, vote),
    {
        if self.hits == 0 {
            self.first = offset;
        } else {
            let sample = (offset - self.last, offset);
            if self.samples.len() < SAMPLE_GAPS {
                self.samples.push(sample);
            } else {
                self.rng = self.rng.wrapping_add(0x9e3779b97f4a7c15u64);
                let mut z = self.rng;
                z = (z ^ (z >> 30u64)).wrapping_mul(0xbf58476d1ce4e5b9u64);
                z = (z ^ (z >> 27u64)).wrapping_mul(0x94d049bb133111ebu64);
                z = z ^ (z >> 31u64);
                let slot = z % self.hits;
                if slot < SAMPLE_GAPS as u64 {
                    self.samples.set(slot as usize, sample);
                }
            }
        }
        self.hits = self.hits + 1;
        if vote {
            self.votes = self.votes + 1;
        }
        self.last = offset;
    }
}

impl Default for Group {
    fn default() -> (g: Group)
        ensures
            g@ == (GroupView { hits: 0, votes: 0, first: 0, last: 0, samples: Seq::empty(), rng: 0 }),
            g.wf(),
    {
        Group::new(0)
    }
}

/// Numeric order on gaps.
pub open spec fn gap_leq() -> spec_fn(u64, u64) -> bool {
    |a: u64, b: u64| a <= b
}

/// Order of samples by destination offset, then by gap.
pub open spec fn sample_leq() -> spec_fn((u64, u64), (u64, u64)) -> bool {
    |a: (u64, u64), b: (u64, u64)| a.1 < b.1 || (a.1 == b.1 && a.0 <= b.0)
}

pub proof fn lemma_orders_total()
    ensures
        total_ordering(gap_leq()),
        total_ordering(sample_leq()),
{
}

/// Sorts gaps ascending.
pub fn sort_gaps(v: &Vec<u64>) -> (r: Vec<u64>)
    ensures
        r@ == v@.sort_by(gap_leq()),
        r@.len() == v@.len(),
{
    let mut out: Vec<u64> = Vec::new();
    let mut i: usize = 0;
    while i < v.len()
        invariant
            i <= v@.len(),
            out@.to_multiset() == v@.take(i as int).to_multiset(),
            sorted_by(out@, gap_leq()),
        decreases v@.len() - i,
    {
        let x = v[i];
        let mut k = out.len();
        while k > 0 && out[k - 1] > x
            invariant
                k <= out@.len(),
                forall|a: int| k <= a < out@.len() ==> #[trigger] out@[a] > x,
            decreases k,
        {
            k = k - 1;
        }
        let ghost before = out@;
        out.insert(k, x);
        proof {
            assert(v@.take(i + 1) =~= v@.take(i as int).push(x));
            assert forall|a: int, b: int| 0 <= a < b < out@.len() implies #[trigger] gap_leq()(out@[a], out@[b]) by {
                if b < k {
                    assert(gap_leq()(before[a], before[b]));
                } else if b == k {
                    if a < k - 1 {
                        assert(gap_leq()(before[a], before[k - 1]));
                    }
                } else if a == k {
                } else if a < k {
                } else {
                    assert(gap_leq()(before[a - 1], before[b - 1]));
                }
            }
        }
        i = i + 1;
    }
    proof {
        assert(v@.take(v@.len() as int) =~= v@);
        lemma_orders_total();
        v@.lemma_sort_by_ensures(gap_leq());
        vstd::seq_lib::lemma_sorted_unique(out@, v@.sort_by(gap_leq()), gap_leq());
        vstd::seq_lib::to_multiset_len(out@);
        vstd::seq_lib::to_multiset_len(v@);
    }
    out
}

/// Sorts samples by destination, then gap.
fn sort_samples(v: &Vec<(u64, u64)>) -> (r: Vec<(u64, u64)>)
    ensures
        r@ == v@.sort_by(sample_leq()),
        r@.len() == v@.len(),
{
    let mut out: Vec<(u64, u64)> = Vec::new();
    let mut i: usize = 0;
    while i < v.len()
        invariant
            i <= v@.len(),
            out@.to_multiset() == v@.take(i as int).to_multiset(),
            sorted_by(out@, sample_leq()),
        decreases v@.len() - i,
    {
        let x = v[i];
        let mut k = out.len();
        while k > 0 && (out[k - 1].1 > x.1 || (out[k - 1].1 == x.1 && out[k - 1].0 > x.0))
            invariant
                k <= out@.len(),
                forall|a: int| k <= a < out@.len() ==> !(#[trigger] sample_leq()(out@[a], x)),
            decreases k,
        {
            k = k - 1;
        }
        let ghost before = out@;
        out.insert(k, x);
        proof {
            assert(v@.take(i + 1) =~= v@.take(i as int).push(x));
            assert forall|a: int, b: int| 0 <= a < b < out@.len() implies #[trigger] sample_leq()(out@[a], out@[b]) by {
                if b < k {
                    assert(sample_leq()(before[a], before[b]));
                } else if b == k {
                    assert(sample_leq()(before[k - 1], x));
                    if a < k - 1 {
                        assert(sample_leq()(before[a], before[k - 1]));
                    }
                } else if a == k {
                    assert(!sample_leq()(before[b - 1], x));
                } else if a < k {
                    assert(sample_leq()(before[a], before[b - 1]));
                } else {
                    assert(sample_leq()(before[a - 1], before[b - 1]));
                }
            }
        }
        i = i + 1;
    }
    proof {
        assert(v@.take(v@.len() as int) =~= v@);
        lemma_orders_total();
        v@.lemma_sort_by_ensures(sample_leq());
        vstd::seq_lib::lemma_sorted_unique(out@, v@.sort_by(sample_leq()), sample_leq());
        vstd::seq_lib::to_multiset_len(out@);
        vstd::seq_lib::to_multiset_len(v@);
    }
    out
}

/// How a group's spacing is classified.
#[derive(Debug, Clone, Copy, PartialEq, Eq)]
pub enum GroupClass {
    PeriodicStructure,
    InsufficientSpacingEvidence,
    NonPeriodicCandidate,
}

impl GroupClass {
    pub fn name(self) -> (r: &'static str)
        ensures
            r@ == (match self {
                GroupClass::PeriodicStructure => "periodic-structure"@,
                GroupClass::InsufficientSpacingEvidence => "insufficient-spacing-evidence"@,
                GroupClass::NonPeriodicCandidate => "non-periodic-candidate"@,
            }),
    {
        match self {
            GroupClass::PeriodicStructure => "periodic-structure",
            GroupClass::InsufficientSpacingEvidence => "insufficient-spacing-evidence",
            GroupClass::NonPeriodicCandidate => "non-periodic-candidate",
        }
    }
}

/// A sampled pair of consecutive hits.
#[derive(Debug, Clone, Copy, PartialEq, Eq)]
pub struct GapExample {
    pub from: u64,
    pub to: u64,
    pub gap: u64,
}

/// Spacing statistics of one group.
#[derive(Debug)]
pub struct GroupStats {
    pub hits: u64,
    pub detection_votes: u64,
    pub first_offset: u64,
    pub last_offset: u64,
    pub total_gaps: u64,
    pub sampled_gaps: usize,
    /// Twice the median sampled gap: the sum of the two middle sorted gaps (the same gap
    /// twice for an odd count).
    pub median_twice: Option<u128>,
    pub mode_gap: Option<u64>,
    /// How often the mode occurs among the sampled gaps; the mode fraction is this
    /// divided by `sampled_gaps`.
    pub mode_sample_count: usize,
    pub periodic: bool,
    pub classification: GroupClass,
    pub gap_examples: Vec<GapExample>,
}

/// Occurrences of `v` among the gaps.
pub open spec fn gap_count(gaps: Seq<u64>, v: u64) -> nat {
    gaps.to_multiset().count(v)
}

/// A group is periodic when it has at least `MIN_GAPS` sampled gaps and strictly more than
/// 90% of them equal the mode.
pub open spec fn spec_periodic(sampled: nat, mode_count: nat) -> bool {
    sampled >= MIN_GAPS && mode_count * 10 > sampled * 9
}

/// The `i`-th of `k` evenly spread example indices among `n` sorted samples.
pub open spec fn example_index(i: int, n: int, k: int) -> int {
    i * n / k
}

/// The largest occurrence count among the values `gaps[0..upto]`.
pub open spec fn max_gap_count(gaps: Seq<u64>, upto: int) -> nat
    decreases upto,
{
    if upto <= 0 {
        0
    } else {
        let a = max_gap_count(gaps, upto - 1);
        let b = gap_count(gaps, gaps[upto - 1]);
        if a >= b { a } else { b }
    }
}

proof fn lemma_max_gap_count_upper(gaps: Seq<u64>, upto: int, bound: nat)
    requires
        forall|a: int| 0 <= a < upto ==> #[trigger] gap_count(gaps, gaps[a]) <= bound,
    ensures
        max_gap_count(gaps, upto) <= bound,
    decreases upto,
{
    if upto > 0 {
        lemma_max_gap_count_upper(gaps, upto - 1, bound);
        assert(gap_count(gaps, gaps[upto - 1]) <= bound);
    }
}

proof fn lemma_max_gap_count_lower(gaps: Seq<u64>, upto: int, a: int)
    requires
        0 <= a < upto,
    ensures
        gap_count(gaps, gaps[a]) <= max_gap_count(gaps, upto),
    decreases upto,
{
    if a < upto - 1 {
        lemma_max_gap_count_lower(gaps, upto - 1, a);
    }
}

/// A group is periodic by its sampled gaps.
pub open spec fn group_periodic(g: GroupView) -> bool {
    let gaps = g.samples.map_values(|s: (u64, u64)| s.0);
    spec_periodic(gaps.len(), max_gap_count(gaps, gaps.len() as int))
}

impl GroupStats {
    /// The statistics that a group's state determines.
    pub open spec fn describes(&self, g: GroupView) -> bool {
        let gaps = g.samples.map_values(|s: (u64, u64)| s.0);
        let sorted = gaps.sort_by(gap_leq());
        let n = gaps.len() as int;
        let ex = g.samples.sort_by(sample_leq());
        let k = if n < EXAMPLES { n } else { EXAMPLES as int };
        &&& self.hits == g.hits
        &&& self.detection_votes == g.votes
        &&& self.first_offset == g.first
        &&& self.last_offset == g.last
        &&& self.total_gaps == if g.hits == 0 { 0 } else { g.hits - 1 }
        &&& self.sampled_gaps == n
        &&& self.median_twice == if n == 0 { None } else { Some((sorted[(n - 1) / 2] + sorted[n / 2]) as u128) }
        &&& self.mode_sample_count == max_gap_count(gaps, n)
        &&& (n == 0 ==> self.mode_gap is None && self.mode_sample_count == 0)
        &&& (n > 0 ==> (self.mode_gap matches Some(m) && {
            &&& gap_count(gaps, m) == self.mode_sample_count
            &&& forall|v: u64| #[trigger] gap_count(gaps, v) <= self.mode_sample_count
            &&& forall|v: u64| v < m ==> #[trigger] gap_count(gaps, v) < self.mode_sample_count
        }))
        &&& self.periodic == spec_periodic(n as nat, self.mode_sample_count as nat)
        &&& self.classification == if self.periodic {
            GroupClass::PeriodicStructure
        } else if n < MIN_GAPS {
            GroupClass::InsufficientSpacingEvidence
        } else {
            GroupClass::NonPeriodicCandidate
        }
        &&& self.gap_examples@.len() == k
        &&& forall|i: int| 0 <= i < k ==> {
            let s = ex[example_index(i, n, k)];
            #[trigger] self.gap_examples@[i] == GapExample { from: (s.1 - s.0) as u64, to: s.1, gap: s.0 }
        }
    }
}

/// Counts the occurrences of `v` in `gaps`.
fn count_of(gaps: &Vec<u64>, v: u64) -> (c: usize)
    ensures
        c == gap_count(gaps@, v),
        c <= gaps@.len(),
{
    broadcast use vstd::multiset::group_multiset_axioms;
    let mut c: usize = 0;
    let mut j: usize = 0;
    assert(gaps@.take(0) =~= Seq::<u64>::empty());
    while j < gaps.len()
        invariant
            j <= gaps@.len(),
            c == gaps@.take(j as int).to_multiset().count(v),
            c <= j,
        decreases gaps@.len() - j,
    {
        assert(gaps@.take(j + 1) =~= gaps@.take(j as int).push(gaps@[j as int]));
        if gaps[j] == v {
            c = c + 1;
        }
        j = j + 1;
    }
    assert(gaps@.take(gaps@.len() as int) =~= gaps@);
    c
}

impl Group {
    /// Summarizes the group: hit counts, sampled-gap median and mode, periodicity and up
    /// to `EXAMPLES` evenly spread gap examples in destination order.
    pub fn finish(&self) -> (stats: GroupStats)
        requires
            self.wf(),
        ensures
            stats.describes(self@),
            stats.sampled_gaps == if stats.total_gaps < SAMPLE_GAPS { stats.total_gaps as int } else { SAMPLE_GAPS as int },
    {
        broadcast use vstd::multiset::group_multiset_axioms;
        let ghost g = self@;
        let n = self.samples.len();
        let mut gaps: Vec<u64> = Vec::new();
        let mut i: usize = 0;
        while i < n
            invariant
                n == self.samples@.len(),
                i <= n,
                gaps@ == self.samples@.take(i as int).map_values(|s: (u64, u64)| s.0),
            decreases n - i,
        {
            gaps.push(self.samples[i].0);
            i = i + 1;
            assert(gaps@ =~= self.samples@.take(i as int).map_values(|s: (u64, u64)| s.0));
        }
        assert(self.samples@.take(n as int) =~= self.samples@);
        let ghost gs = gaps@;
        // The mode: the most frequent gap, the smaller one on ties.
        let mut mode: Option<u64> = None;
        let mut mode_count: usize = 0;
        let mut j: usize = 0;
        while j < n
            invariant
                n == gaps@.len(),
                j <= n,
                gs == gaps@,
                mode_count <= n,
                forall|a: int| 0 <= a < j ==> #[trigger] gap_count(gs, gs[a]) <= mode_count,
                j == 0 <==> mode is None,
                mode matches Some(m) ==> (gap_count(gs, m) == mode_count && gs.contains(m)
                    && forall|a: int| 0 <= a < j && gs[a] < m ==> #[trigger] gap_count(gs, gs[a]) < mode_count),
            decreases n - j,
        {
            let v = gaps[j];
            let c = count_of(&gaps, v);
            let better = match mode {
                None => true,
                Some(m) => c > mode_count || (c == mode_count && v < m),
            };
            if better {
                mode = Some(v);
                mode_count = c;
            }
            j = j + 1;
        }
        proof {
            if n > 0 {
                let m = mode->0;
                assert forall|v: u64| #[trigger] gap_count(gs, v) <= mode_count by {
                    if gs.to_multiset().count(v) > 0 {
                        assert(gs.contains(v));
                        let a = choose|a: int| 0 <= a < gs.len() && gs[a] == v;
                        assert(gap_count(gs, gs[a]) <= mode_count);
                    }
                }
                assert forall|v: u64| v < m implies #[trigger] gap_count(gs, v) < mode_count by {
                    if gs.to_multiset().count(v) > 0 {
                        let a = choose|a: int| 0 <= a < gs.len() && gs[a] == v;
                        assert(gap_count(gs, gs[a]) < mode_count);
                    } else {
                        assert(gs.to_multiset().count(m) > 0);
                    }
                }
            }
        }
        proof {
            lemma_max_gap_count_upper(gs, n as int, mode_count as nat);
            if n > 0 {
                let m = mode->0;
                let a = choose|a: int| 0 <= a < gs.len() && gs[a] == m;
                lemma_max_gap_count_lower(gs, n as int, a);
            }
        }
        let sorted = sort_gaps(&gaps);
        let median_twice = if n == 0 {
            None
        } else {
            Some(sorted[(n - 1) / 2] as u128 + sorted[n / 2] as u128)
        };
        assert(n <= 256);
        let periodic = n >= MIN_GAPS && mode_count * 10 > n * 9;
        let classification = if periodic {
            GroupClass::PeriodicStructure
        } else if n < MIN_GAPS {
            GroupClass::InsufficientSpacingEvidence
        } else {
            GroupClass::NonPeriodicCandidate
        };
        let ex = sort_samples(&self.samples);
        let k = if n < EXAMPLES {
            n
        } else {
            EXAMPLES
        };
        let mut examples: Vec<GapExample> = Vec::new();
        let mut e: usize = 0;
        while e < k
            invariant
                k <= n,
                k == (if n < EXAMPLES { n } else { EXAMPLES }),
                n == ex@.len(),
                ex@ == g.samples.sort_by(sample_leq()),
                g.samples == self.samples@,
                n <= 256,
                k <= 16,
                self.wf(),
                e <= k,
                examples@.len() == e,
                forall|i: int| 0 <= i < e ==> {
                    let s = ex@[example_index(i, n as int, k as int)];
                    #[trigger] examples@[i] == GapExample { from: (s.1 - s.0) as u64, to: s.1, gap: s.0 }
                },
            decreases k - e,
        {
            proof {
                assert(e * n <= 16 * 256) by (nonlinear_arith)
                    requires
                        e < 16,
                        n <= 256,
                ;
                assert(e * n < k * n) by (nonlinear_arith)
                    requires
                        e < k,
                        n > 0,
                ;
                assert((e * n) / (k as int) < n) by (nonlinear_arith)
                    requires
                        e * n < k * n,
                        k > 0,
                ;
            }
            let idx = e * n / k;
            proof {
                g.samples.lemma_sort_by_ensures(sample_leq());
                let s = ex@[idx as int];
                assert(g.samples.to_multiset().contains(s));
                let w = choose|w: int| 0 <= w < g.samples.len() && g.samples[w] == s;
                assert(self.samples@[w] == s);
            }
            let s = ex[idx];
            examples.push(GapExample { from: s.1 - s.0, to: s.1, gap: s.0 });
            e = e + 1;
        }
        GroupStats {
            hits: self.hits,
            detection_votes: self.votes,
            first_offset: self.first,
            last_offset: self.last,
            total_gaps: if self.hits == 0 {
                0
            } else {
                self.hits - 1
            },
            sampled_gaps: n,
            median_twice,
            mode_gap: mode,
            mode_sample_count: mode_count,
            periodic,
            classification,
            gap_examples: examples,
        }
    }
}

/// Group keys ordered by header width, then class word.
pub open spec fn key_lt(a: (Kind, u64), b: (Kind, u64)) -> bool {
    a.0.spec_slot() < b.0.spec_slot() || (a.0 == b.0 && a.1 < b.1)
}

/// A group entry: its key and state.
pub type GroupEntry = (Kind, u64, GroupView);

pub open spec fn entry_key(e: GroupEntry) -> (Kind, u64) {
    (e.0, e.1)
}

/// The groups are strictly ordered by key.
pub open spec fn keys_sorted(gs: Seq<GroupEntry>) -> bool {
    forall|i: int, j: int| 0 <= i < j < gs.len() ==> key_lt(entry_key(#[trigger] gs[i]), entry_key(#[trigger] gs[j]))
}

/// The index of the group with this key.
pub open spec fn find_group(gs: Seq<GroupEntry>, key: (Kind, u64)) -> Option<int> {
    if exists|i: int| 0 <= i < gs.len() && entry_key(#[trigger] gs[i]) == key {
        Some(choose|i: int| 0 <= i < gs.len() && entry_key(#[trigger] gs[i]) == key)
    } else {
        None
    }
}

/// The number of groups whose key precedes `key`.
pub open spec fn insert_position(gs: Seq<GroupEntry>, key: (Kind, u64)) -> int {
    gs.filter(|e: GroupEntry| key_lt(entry_key(e), key)).len() as int
}

/// A fresh group's sampler seed: the class word with the width slot in the top bit.
pub open spec fn group_seed(kind: Kind, klass: u64) -> u64 {
    klass ^ (kind.spec_slot() << 63u64)
}

pub open spec fn fresh_group(seed: u64) -> GroupView {
    GroupView { hits: 0, votes: 0, first: 0, last: 0, samples: Seq::empty(), rng: seed }
}

/// Per-width counters: (wide, narrow).
pub open spec fn bump(c: (u64, u64), kind: Kind, by: u64) -> (u64, u64) {
    match kind {
        Kind::Wide => ((c.0 + by) as u64, c.1),
        Kind::Narrow => (c.0, (c.1 + by) as u64),
    }
}

/// The mathematical state of a [`Collector`].
pub struct CollectorView {
    pub groups: Seq<GroupEntry>,
    pub raw_votes: (u64, u64),
    pub untracked_votes: (u64, u64),
    pub untracked_hits: (u64, u64),
}

/// The collector after one observation of `klass` at `offset`: the vote always counts;
/// once `MAX_GROUPS` groups exist, hits of new keys are counted as untracked.
pub open spec fn spec_collect_observe(c: CollectorView, kind: Kind, klass: u64, offset: u64, vote: bool) -> CollectorView {
    let add: u64 = if vote { 1 } else { 0 };
    let raw = bump(c.raw_votes, kind, add);
    let key = (kind, klass);
    match find_group(c.groups, key) {
        Some(i) => CollectorView {
            raw_votes: raw,
            groups: c.groups.update(i, (kind, klass, spec_observe(c.groups[i].2, offset, vote))),
            ..c
        },
        None => if c.groups.len() == MAX_GROUPS {
            CollectorView {
                raw_votes: raw,
                untracked_votes: bump(c.untracked_votes, kind, add),
                untracked_hits: bump(c.untracked_hits, kind, 1),
                ..c
            }
        } else {
            CollectorView {
                raw_votes: raw,
                groups: c.groups.insert(
                    insert_position(c.groups, key),
                    (kind, klass, spec_observe(fresh_group(group_seed(kind, klass)), offset, vote)),
                ),
                ..c
            }
        },
    }
}

/// Sum of the votes of the groups of one width.
pub open spec fn kind_votes(gs: Seq<GroupEntry>, kind: Kind) -> nat
    decreases gs.len(),
{
    if gs.len() == 0 {
        0
    } else {
        kind_votes(gs.drop_last(), kind) + if gs.last().0 == kind { gs.last().2.votes as nat } else { 0nat }
    }
}

/// Every vote of a width went to one of its groups or was untracked.
pub open spec fn votes_reconcile(c: CollectorView) -> bool {
    &&& c.raw_votes.0 == kind_votes(c.groups, Kind::Wide) + c.untracked_votes.0
    &&& c.raw_votes.1 == kind_votes(c.groups, Kind::Narrow) + c.untracked_votes.1
}

proof fn lemma_kind_votes_update(gs: Seq<GroupEntry>, i: int, e: GroupEntry, kind: Kind)
    requires
        0 <= i < gs.len(),
    ensures
        kind_votes(gs.update(i, e), kind) == kind_votes(gs, kind)
            - (if gs[i].0 == kind { gs[i].2.votes as int } else { 0int })
            + (if e.0 == kind { e.2.votes as int } else { 0int }),
    decreases gs.len(),
{
    if i < gs.len() - 1 {
        lemma_kind_votes_update(gs.drop_last(), i, e, kind);
        assert(gs.update(i, e).drop_last() =~= gs.drop_last().update(i, e));
    } else {
        assert(gs.update(i, e).drop_last() =~= gs.drop_last());
    }
}

proof fn lemma_kind_votes_insert(gs: Seq<GroupEntry>, i: int, e: GroupEntry, kind: Kind)
    requires
        0 <= i <= gs.len(),
    ensures
        kind_votes(gs.insert(i, e), kind) == kind_votes(gs, kind) + (if e.0 == kind { e.2.votes as int } else { 0int }),
    decreases gs.len(),
{
    if i < gs.len() {
        lemma_kind_votes_insert(gs.drop_last(), i, e, kind);
        assert(gs.insert(i, e).drop_last() =~= gs.drop_last().insert(i, e));
    } else {
        assert(gs.insert(i, e).drop_last() =~= gs);
    }
}

/// A width's group votes split into those of periodic and of other groups.
proof fn lemma_kind_votes_split(gs: Seq<GroupEntry>, kind: Kind)
    ensures
        kind_votes(gs, kind) == votes_of(gs, kind, true) + votes_of(gs, kind, false),
    decreases gs.len(),
{
    if gs.len() > 0 {
        lemma_kind_votes_split(gs.drop_last(), kind);
    }
}

/// Sum of group hits.
pub open spec fn total_hits(gs: Seq<GroupEntry>) -> nat
    decreases gs.len(),
{
    if gs.len() == 0 {
        0
    } else {
        (total_hits(gs.drop_last()) + gs.last().2.hits) as nat
    }
}

proof fn lemma_total_hits_update(gs: Seq<GroupEntry>, i: int, e: GroupEntry)
    requires
        0 <= i < gs.len(),
    ensures
        total_hits(gs.update(i, e)) == total_hits(gs) - gs[i].2.hits + e.2.hits,
    decreases gs.len(),
{
    if i < gs.len() - 1 {
        lemma_total_hits_update(gs.drop_last(), i, e);
        assert(gs.update(i, e).drop_last() =~= gs.drop_last().update(i, e));
    } else {
        assert(gs.update(i, e).drop_last() =~= gs.drop_last());
    }
}

proof fn lemma_total_hits_insert(gs: Seq<GroupEntry>, i: int, e: GroupEntry)
    requires
        0 <= i <= gs.len(),
    ensures
        total_hits(gs.insert(i, e)) == total_hits(gs) + e.2.hits,
    decreases gs.len(),
{
    if i < gs.len() {
        lemma_total_hits_insert(gs.drop_last(), i, e);
        assert(gs.insert(i, e).drop_last() =~= gs.drop_last().insert(i, e));
    } else {
        assert(gs.insert(i, e).drop_last() =~= gs);
    }
}

proof fn lemma_hits_bounded(gs: Seq<GroupEntry>, i: int)
    requires
        0 <= i < gs.len(),
    ensures
        gs[i].2.hits <= total_hits(gs),
    decreases gs.len(),
{
    if i < gs.len() - 1 {
        lemma_hits_bounded(gs.drop_last(), i);
    }
}

/// Collects every header-group observation of a scan.
pub struct Collector {
    groups: Vec<(Kind, u64, Group)>,
    raw_votes: (u64, u64),
    untracked_votes: (u64, u64),
    untracked_hits: (u64, u64),
    observations: u64,
}

impl View for Collector {
    type V = CollectorView;

    closed spec fn view(&self) -> CollectorView {
        CollectorView {
            groups: self.groups@.map_values(|e: (Kind, u64, Group)| (e.0, e.1, e.2@)),
            raw_votes: self.raw_votes,
            untracked_votes: self.untracked_votes,
            untracked_hits: self.untracked_hits,
        }
    }
}

impl Collector {
    /// Keys are strictly ordered, at most `MAX_GROUPS` groups exist, each group is
    /// well formed, and all counters are bounded by the number of observations.
    pub closed spec fn wf(&self) -> bool {
        self.core_wf() && votes_reconcile(self@)
    }

    closed spec fn core_wf(&self) -> bool {
        &&& keys_sorted(self@.groups)
        &&& self.groups@.len() <= MAX_GROUPS
        &&& forall|i: int| 0 <= i < self.groups@.len() ==> (#[trigger] self.groups@[i]).2.wf()
        &&& total_hits(self@.groups) + self.untracked_hits.0 + self.untracked_hits.1 == self.observations
        &&& self.raw_votes.0 + self.raw_votes.1 <= self.observations
        &&& self.untracked_votes.0 <= self.untracked_hits.0
        &&& self.untracked_votes.1 <= self.untracked_hits.1
    }

    /// The number of observations so far.
    pub closed spec fn observations(&self) -> nat {
        self.observations as nat
    }

    /// Every group's last hit is at or below `offset`.
    pub open spec fn lasts_at_most(&self, offset: u64) -> bool {
        forall|i: int| 0 <= i < self@.groups.len() ==> (#[trigger] self@.groups[i]).2.last <= offset
    }

    pub fn new() -> (c: Collector)
        ensures
            c.wf(),
            c.observations() == 0,
            c@.groups.len() == 0,
            c@.raw_votes == (0u64, 0u64),
            c@.untracked_votes == (0u64, 0u64),
            c@.untracked_hits == (0u64, 0u64),
    {
        let c = Collector {
            groups: Vec::new(),
            raw_votes: (0, 0),
            untracked_votes: (0, 0),
            untracked_hits: (0, 0),
            observations: 0,
        };
        assert(c@.groups =~= Seq::<GroupEntry>::empty());
        c
    }

    /// Binary search for a key: its index, or where it would be inserted.
    fn locate(&self, kind: Kind, klass: u64) -> (r: (usize, bool))
        requires
            self.core_wf(),
        ensures
            r.1 ==> r.0 < self@.groups.len() && entry_key(self@.groups[r.0 as int]) == (kind, klass) && find_group(self@.groups, (kind, klass)) == Some(r.0 as int),
            !r.1 ==> find_group(self@.groups, (kind, klass)) is None && r.0 == insert_position(self@.groups, (kind, klass)),
            r.0 <= self@.groups.len(),
    {
        let ghost gs = self@.groups;
        let ghost key = (kind, klass);
        let slot = kind.slot();
        let mut lo: usize = 0;
        let mut hi: usize = self.groups.len();
        while lo < hi
            invariant
                self.core_wf(),
                gs == self@.groups,
                key == (kind, klass),
                slot == kind.spec_slot(),
                0 <= lo <= hi <= gs.len(),
                forall|k: int| 0 <= k < lo ==> key_lt(entry_key(#[trigger] gs[k]), key),
                forall|k: int| hi <= k < gs.len() ==> !key_lt(entry_key(#[trigger] gs[k]), key),
            decreases hi - lo,
        {
            let mid = lo + (hi - lo) / 2;
            let e = &self.groups[mid];
            let s = e.0.slot();
            assert(gs[mid as int] == (e.0, e.1, e.2@));
            if s < slot || (s == slot && e.1 < klass) {
                proof {
                    assert forall|k: int| 0 <= k <= mid implies key_lt(entry_key(#[trigger] gs[k]), key) by {
                        if k < mid {
                            assert(key_lt(entry_key(gs[k]), entry_key(gs[mid as int])));
                        }
                    }
                }
                lo = mid + 1;
            } else {
                proof {
                    assert forall|k: int| mid <= k < gs.len() implies !key_lt(entry_key(#[trigger] gs[k]), key) by {
                        if k > mid {
                            assert(key_lt(entry_key(gs[mid as int]), entry_key(gs[k])));
                        }
                    }
                }
                hi = mid;
            }
        }
        proof {
            lemma_filter_prefix_keys(gs, key, lo as int);
        }
        if lo < self.groups.len() && self.groups[lo].0.slot() == slot && self.groups[lo].1 == klass {
            proof {
                let e = self.groups@[lo as int];
                assert(gs[lo as int] == (e.0, e.1, e.2@));
                assert(e.0 == kind);
                assert(entry_key(gs[lo as int]) == key);
                let j = choose|j: int| 0 <= j < gs.len() && entry_key(#[trigger] gs[j]) == key;
                if j < lo {
                    assert(key_lt(entry_key(gs[j]), key));
                } else if j > lo {
                    assert(key_lt(entry_key(gs[lo as int]), entry_key(gs[j])));
                }
            }
            (lo, true)
        } else {
            proof {
                assert forall|j: int| 0 <= j < gs.len() implies entry_key(#[trigger] gs[j]) != key by {
                    if j < lo {
                        assert(key_lt(entry_key(gs[j]), key));
                    } else if j > lo {
                        assert(!key_lt(entry_key(gs[lo as int]), key));
                        assert(key_lt(entry_key(gs[lo as int]), entry_key(gs[j])));
                    } else {
                        let e = self.groups@[lo as int];
                        assert(gs[lo as int] == (e.0, e.1, e.2@));
                    }
                }
            }
            (lo, false)
        }
    }

    /// Adds a hit to the existing group at index `i`.
    fn observe_existing(&mut self, i: usize, offset: u64, vote: bool)
        requires
            old(self).core_wf(),
            i < old(self)@.groups.len(),
            old(self).observations() < u64::MAX,
            old(self)@.groups[i as int].2.last <= offset,
        ensures
            final(self).core_wf(),
            final(self)@ == (CollectorView {
                groups: old(self)@.groups.update(i as int, (old(self)@.groups[i as int].0, old(self)@.groups[i as int].1,
                    spec_observe(old(self)@.groups[i as int].2, offset, vote))),
                ..old(self)@
            }),
            final(self).observations() == old(self).observations() + 1,
            old(self).lasts_at_most(offset) ==> final(self).lasts_at_most(offset),
    {
        let ghost old_groups = self@.groups;
        proof {
            lemma_hits_bounded(old_groups, i as int);
        }
        let mut entry = self.groups.remove(i);
        assert(old_groups[i as int] == (entry.0, entry.1, entry.2@));
        entry.2.observe(offset, vote);
        let ghost ne = (entry.0, entry.1, entry.2@);
        self.groups.insert(i, entry);
        self.observations = self.observations + 1;
        proof {
            assert(self@.groups =~= old_groups.update(i as int, ne));
            lemma_total_hits_update(old_groups, i as int, ne);
            assert forall|k: int| 0 <= k < self.groups@.len() implies (#[trigger] self.groups@[k]).2.wf() by {
                if k != i {
                    assert(self.groups@[k] == old(self).groups@[k]);
                }
            }
            assert forall|a: int, b: int| 0 <= a < b < self@.groups.len() implies key_lt(entry_key(#[trigger] self@.groups[a]), entry_key(#[trigger] self@.groups[b])) by {
                assert(entry_key(self@.groups[a]) == entry_key(old_groups[a]));
                assert(entry_key(self@.groups[b]) == entry_key(old_groups[b]));
            }
            if old(self).lasts_at_most(offset) {
                assert forall|k: int| 0 <= k < self@.groups.len() implies (#[trigger] self@.groups[k]).2.last <= offset by {
                    if k != i {
                        assert(self@.groups[k] == old_groups[k]);
                    }
                }
            }
        }
    }

    /// Counts a hit of a new key once the group limit is reached.
    fn observe_untracked(&mut self, kind: Kind, vote: bool)
        requires
            old(self).core_wf(),
            old(self).observations() < u64::MAX,
        ensures
            final(self).core_wf(),
            final(self)@ == (CollectorView {
                untracked_votes: bump(old(self)@.untracked_votes, kind, if vote { 1u64 } else { 0u64 }),
                untracked_hits: bump(old(self)@.untracked_hits, kind, 1),
                ..old(self)@
            }),
            final(self).observations() == old(self).observations() + 1,
    {
        proof {
            lemma_total_hits_nonneg(self@.groups);
        }
        let add: u64 = if vote {
            1
        } else {
            0
        };
        match kind {
            Kind::Wide => {
                self.untracked_votes.0 = self.untracked_votes.0 + add;
                self.untracked_hits.0 = self.untracked_hits.0 + 1;
            },
            Kind::Narrow => {
                self.untracked_votes.1 = self.untracked_votes.1 + add;
                self.untracked_hits.1 = self.untracked_hits.1 + 1;
            },
        }
        self.observations = self.observations + 1;
        assert(self@.groups =~= old(self)@.groups);
    }

    /// Starts a new group for `(kind, klass)` at its sorted position `i`.
    fn observe_new(&mut self, i: usize, kind: Kind, klass: u64, offset: u64, vote: bool)
        requires
            old(self).core_wf(),
            old(self)@.groups.len() < MAX_GROUPS,
            find_group(old(self)@.groups, (kind, klass)) is None,
            i == insert_position(old(self)@.groups, (kind, klass)),
            old(self).observations() < u64::MAX,
        ensures
            final(self).core_wf(),
            final(self)@ == (CollectorView {
                groups: old(self)@.groups.insert(i as int,
                    (kind, klass, spec_observe(fresh_group(group_seed(kind, klass)), offset, vote))),
                ..old(self)@
            }),
            final(self).observations() == old(self).observations() + 1,
            old(self).lasts_at_most(offset) ==> final(self).lasts_at_most(offset),
    {
        let ghost old_groups = self@.groups;
        let ghost key = (kind, klass);
        proof {
            lemma_filter_prefix_keys_back(old_groups, key, i as int);
        }
        let mut g = Group::new(klass ^ (kind.slot() << 63u64));
        g.observe(offset, vote);
        self.groups.insert(i, (kind, klass, g));
        self.observations = self.observations + 1;
        proof {
            let ng = spec_observe(fresh_group(group_seed(kind, klass)), offset, vote);
            assert(self@.groups =~= old_groups.insert(i as int, (kind, klass, ng)));
            lemma_total_hits_insert(old_groups, i as int, (kind, klass, ng));
            assert forall|k: int| 0 <= k < self.groups@.len() implies (#[trigger] self.groups@[k]).2.wf() by {
                if k < i {
                    assert(self.groups@[k] == old(self).groups@[k]);
                } else if k > i {
                    assert(self.groups@[k] == old(self).groups@[k - 1]);
                }
            }
            assert forall|a: int, b: int| 0 <= a < b < self@.groups.len() implies key_lt(entry_key(#[trigger] self@.groups[a]), entry_key(#[trigger] self@.groups[b])) by {
                if b < i {
                    assert(entry_key(self@.groups[a]) == entry_key(old_groups[a]));
                    assert(entry_key(self@.groups[b]) == entry_key(old_groups[b]));
                } else if b == i {
                    assert(entry_key(self@.groups[a]) == entry_key(old_groups[a]));
                } else if a == i {
                    assert(entry_key(self@.groups[b]) == entry_key(old_groups[b - 1]));
                    assert(!key_lt(entry_key(old_groups[b - 1]), key));
                    assert(entry_key(old_groups[b - 1]) != key);
                } else if a < i {
                    assert(entry_key(self@.groups[a]) == entry_key(old_groups[a]));
                    assert(entry_key(self@.groups[b]) == entry_key(old_groups[b - 1]));
                } else {
                    assert(entry_key(self@.groups[a]) == entry_key(old_groups[a - 1]));
                    assert(entry_key(self@.groups[b]) == entry_key(old_groups[b - 1]));
                }
            }
            if old(self).lasts_at_most(offset) {
                assert forall|k: int| 0 <= k < self@.groups.len() implies (#[trigger] self@.groups[k]).2.last <= offset by {
                    if k < i {
                        assert(self@.groups[k] == old_groups[k]);
                    } else if k > i {
                        assert(self@.groups[k] == old_groups[k - 1]);
                    }
                }
            }
        }
    }

    /// Records one header-shape observation: a class word `klass` at `offset`.
    #[verifier::spinoff_prover]
    #[verifier::rlimit(40)]
    pub fn observe(&mut self, kind: Kind, klass: u64, offset: u64, vote: bool)
        requires
            old(self).wf(),
            old(self).observations() < u64::MAX,
            match find_group(old(self)@.groups, (kind, klass)) {
                Some(i) => old(self)@.groups[i].2.last <= offset,
                None => true,
            },
        ensures
            final(self).wf(),
            final(self)@ == spec_collect_observe(old(self)@, kind, klass, offset, vote),
            final(self).observations() == old(self).observations() + 1,
            old(self).lasts_at_most(offset) ==> final(self).lasts_at_most(offset),
    {
        let ghost c0 = self@;
        let (i, found) = self.locate(kind, klass);
        if found {
            self.observe_existing(i, offset, vote);
            proof {
                let e = (c0.groups[i as int].0, c0.groups[i as int].1, spec_observe(c0.groups[i as int].2, offset, vote));
                lemma_kind_votes_update(c0.groups, i as int, e, Kind::Wide);
                lemma_kind_votes_update(c0.groups, i as int, e, Kind::Narrow);
                assert(c0.groups[i as int].0 == kind);
                lemma_hits_bounded(c0.groups, i as int);
                assert(old(self).groups@[i as int].2.wf());
                assert(c0.groups[i as int].2.votes <= c0.groups[i as int].2.hits);
                assert(e.2.votes == c0.groups[i as int].2.votes + if vote { 1int } else { 0int });
            }
        } else if self.groups.len() == MAX_GROUPS {
            self.observe_untracked(kind, vote);
        } else {
            self.observe_new(i, kind, klass, offset, vote);
            proof {
                let e = (kind, klass, spec_observe(fresh_group(group_seed(kind, klass)), offset, vote));
                lemma_kind_votes_insert(c0.groups, i as int, e, Kind::Wide);
                lemma_kind_votes_insert(c0.groups, i as int, e, Kind::Narrow);
            }
        }
        let add: u64 = if vote {
            1
        } else {
            0
        };
        match kind {
            Kind::Wide => self.raw_votes.0 = self.raw_votes.0 + add,
            Kind::Narrow => self.raw_votes.1 = self.raw_votes.1 + add,
        }
        proof {
            assert(votes_reconcile(c0));
            assert(votes_reconcile(self@));
        }
    }
}

proof fn lemma_total_hits_nonneg(gs: Seq<GroupEntry>)
    ensures
        total_hits(gs) >= 0,
{
}

/// With keys sorted, the keys preceding `key` are exactly the first `p`.
proof fn lemma_filter_prefix_keys(gs: Seq<GroupEntry>, key: (Kind, u64), p: int)
    requires
        0 <= p <= gs.len(),
        forall|k: int| 0 <= k < p ==> key_lt(entry_key(#[trigger] gs[k]), key),
        forall|k: int| p <= k < gs.len() ==> !key_lt(entry_key(#[trigger] gs[k]), key),
    ensures
        insert_position(gs, key) == p,
    decreases gs.len(),
{
    reveal_with_fuel(Seq::<_>::filter, 1);
    let f = |e: GroupEntry| key_lt(entry_key(e), key);
    if gs.len() > 0 {
        if p == gs.len() {
            lemma_filter_prefix_keys(gs.drop_last(), key, p - 1);
        } else {
            lemma_filter_prefix_keys(gs.drop_last(), key, p);
        }
    }
}

/// Conversely, the insert position splits the sorted keys.
proof fn lemma_filter_prefix_keys_back(gs: Seq<GroupEntry>, key: (Kind, u64), p: int)
    requires
        keys_sorted(gs),
        find_group(gs, key) is None,
        p == insert_position(gs, key),
    ensures
        0 <= p <= gs.len(),
        forall|k: int| 0 <= k < p ==> key_lt(entry_key(#[trigger] gs[k]), key),
        forall|k: int| p <= k < gs.len() ==> !key_lt(entry_key(#[trigger] gs[k]), key),
{
    let q = lemma_split_keys(gs, key);
    lemma_filter_prefix_keys(gs, key, q);
}

proof fn lemma_split_keys(gs: Seq<GroupEntry>, key: (Kind, u64)) -> (q: int)
    requires
        keys_sorted(gs),
    ensures
        0 <= q <= gs.len(),
        forall|k: int| 0 <= k < q ==> key_lt(entry_key(#[trigger] gs[k]), key),
        forall|k: int| q <= k < gs.len() ==> !key_lt(entry_key(#[trigger] gs[k]), key),
    decreases gs.len(),
{
    if gs.len() == 0 {
        0
    } else if key_lt(entry_key(gs.last()), key) {
        assert forall|k: int| 0 <= k < gs.len() implies key_lt(entry_key(#[trigger] gs[k]), key) by {
            if k < gs.len() - 1 {
                assert(key_lt(entry_key(gs[k]), entry_key(gs[gs.len() - 1])));
            }
        }
        gs.len() as int
    } else {
        let q = lemma_split_keys(gs.drop_last(), key);
        assert forall|k: int| 0 <= k < q implies key_lt(entry_key(#[trigger] gs[k]), key) by {
            assert(gs[k] == gs.drop_last()[k]);
        }
        assert forall|k: int| q <= k < gs.len() implies !key_lt(entry_key(#[trigger] gs[k]), key) by {
            if k < gs.len() - 1 {
                assert(gs[k] == gs.drop_last()[k]);
            }
        }
        q
    }
}


/// The name of a header width as it appears in group keys.
pub open spec fn spec_kind_name(k: Kind) -> Seq<char> {
    match k {
        Kind::Wide => "wide"@,
        Kind::Narrow => "narrow"@,
    }
}

/// A group's key: the width name, a colon, and the class word in hexadecimal.
pub open spec fn spec_group_key(k: Kind, klass: u64) -> Seq<char> {
    spec_kind_name(k) + ":"@ + spec_hex_literal(klass)
}

/// Formats a group key such as `narrow:0x1000`.
pub fn group_key(kind: Kind, klass: u64) -> (s: String)
    ensures
        s@ == spec_group_key(kind, klass),
{
    let mut out = chars_of(kind.name());
    out.append(&mut chars_of(":"));
    out.push('0');
    out.push('x');
    push_hex(&mut out, klass);
    proof {
        assert(out@ =~= spec_group_key(kind, klass));
    }
    string_from_chars(out.as_slice())
}

/// Detection votes of the groups of width `kind` whose periodicity is `periodic`.
pub open spec fn votes_of(gs: Seq<GroupEntry>, kind: Kind, periodic: bool) -> nat
    decreases gs.len(),
{
    if gs.len() == 0 {
        0
    } else {
        let e = gs.last();
        (votes_of(gs.drop_last(), kind, periodic) + if e.0 == kind && group_periodic(e.2) == periodic {
            e.2.votes as nat
        } else {
            0nat
        }) as nat
    }
}

/// Every group has at most as many votes as hits.
pub open spec fn votes_within_hits(gs: Seq<GroupEntry>) -> bool {
    forall|i: int| 0 <= i < gs.len() ==> (#[trigger] gs[i]).2.votes <= gs[i].2.hits
}

proof fn lemma_votes_bounded(gs: Seq<GroupEntry>)
    requires
        votes_within_hits(gs),
    ensures
        votes_of(gs, Kind::Wide, true) + votes_of(gs, Kind::Wide, false) + votes_of(gs, Kind::Narrow, true)
            + votes_of(gs, Kind::Narrow, false) <= total_hits(gs),
    decreases gs.len(),
{
    if gs.len() > 0 {
        assert(votes_within_hits(gs.drop_last())) by {
            assert forall|i: int| 0 <= i < gs.drop_last().len() implies (#[trigger] gs.drop_last()[i]).2.votes <= gs.drop_last()[i].2.hits by {
                assert(gs.drop_last()[i] == gs[i]);
            }
        }
        lemma_votes_bounded(gs.drop_last());
        assert(gs.last() == gs[gs.len() - 1]);
    }
}

proof fn lemma_votes_prefix(gs: Seq<GroupEntry>, i: int, kind: Kind, periodic: bool)
    requires
        0 <= i <= gs.len(),
    ensures
        votes_of(gs.take(i), kind, periodic) <= votes_of(gs, kind, periodic),
    decreases gs.len(),
{
    if i < gs.len() {
        assert(gs.take(i) =~= gs.drop_last().take(i));
        lemma_votes_prefix(gs.drop_last(), i, kind, periodic);
    } else {
        assert(gs.take(i) =~= gs);
    }
}

/// Why the spacing-filtered detection abstains.
#[derive(Debug, Clone, Copy, PartialEq, Eq)]
pub enum Abstention {
    /// The group limit dropped detection-eligible hits.
    GroupLimit,
    /// Fewer than 32 non-periodic detection votes remain.
    FewVotes,
}

impl Abstention {
    pub fn reason(self) -> (r: &'static str)
        ensures
            r@ == (match self {
                Abstention::GroupLimit => "group limit dropped detection-eligible hits; retained vote share cannot establish the capture profile"@,
                Abstention::FewVotes => "fewer than 32 non-periodic detection votes remain"@,
            }),
    {
        match self {
            Abstention::GroupLimit => "group limit dropped detection-eligible hits; retained vote share cannot establish the capture profile",
            Abstention::FewVotes => "fewer than 32 non-periodic detection votes remain",
        }
    }
}

/// Header-shape detection after removing periodic groups' votes.
#[derive(Debug, Clone, Copy)]
pub struct SpacingDetection {
    /// The vote over retained (non-periodic) groups; its share is the retained vote share.
    pub retained: VoteDetection,
    /// The final suggestion: inconclusive whenever the group limit dropped votes.
    pub suggestion: Suggestion,
    /// The confidence is reported only for a conclusive suggestion.
    pub confidence_withheld: bool,
    pub raw_votes: (u64, u64),
    pub excluded_periodic_votes: (u64, u64),
    pub untracked_votes: (u64, u64),
    pub untracked_group_hits: (u64, u64),
    pub abstention: Option<Abstention>,
}

/// The result of a scan's spacing analysis.
#[derive(Debug)]
pub struct Report {
    /// Per-group statistics in key order (width, then class word).
    pub stats: Vec<(String, GroupStats)>,
    pub detection: SpacingDetection,
    /// Some hits went to groups beyond the group limit.
    pub truncated: bool,
}

impl Report {
    /// The statistics of the group with this key.
    pub fn get(&self, key: &str) -> (r: Option<&GroupStats>)
        ensures
            r matches Some(s) ==> exists|i: int| 0 <= i < self.stats@.len() && self.stats@[i].0@ == key@ && *s == self.stats@[i].1,
            r is None ==> forall|i: int| 0 <= i < self.stats@.len() ==> self.stats@[i].0@ != key@,
    {
        let mut i: usize = 0;
        while i < self.stats.len()
            invariant
                i <= self.stats@.len(),
                forall|j: int| 0 <= j < i ==> self.stats@[j].0@ != key@,
            decreases self.stats@.len() - i,
        {
            if str_eq(self.stats[i].0.as_str(), key) {
                return Some(&self.stats[i].1);
            }
            i = i + 1;
        }
        None
    }
}

/// Per-group statistics in the collector's key order, each describing its group.
pub open spec fn stats_describe(stats: Seq<(String, GroupStats)>, c: CollectorView) -> bool {
    &&& stats.len() == c.groups.len()
    &&& forall|i: int| 0 <= i < c.groups.len() ==> {
        &&& (#[trigger] stats[i]).0@ == spec_group_key(c.groups[i].0, c.groups[i].1)
        &&& stats[i].1.describes(c.groups[i].2)
    }
}

/// The spacing-filtered detection of a collector's state: periodic groups' votes excluded,
/// the retained votes put to the header-shape vote, and abstention when the group limit
/// dropped votes or fewer than 32 retained votes remain.
pub open spec fn detection_describes(d: SpacingDetection, c: CollectorView) -> bool {
    let group_limit = c.untracked_votes.0 > 0 || c.untracked_votes.1 > 0;
    let w = d.retained.wide_votes;
    let n = d.retained.narrow_votes;
    &&& d.raw_votes == c.raw_votes
    &&& d.untracked_votes == c.untracked_votes
    &&& d.untracked_group_hits == c.untracked_hits
    &&& d.excluded_periodic_votes.0 == votes_of(c.groups, Kind::Wide, true)
    &&& d.excluded_periodic_votes.1 == votes_of(c.groups, Kind::Narrow, true)
    &&& w == votes_of(c.groups, Kind::Wide, false)
    &&& n == votes_of(c.groups, Kind::Narrow, false)
    &&& d.retained.suggestion == spec_suggestion(w, n)
    &&& d.retained.share_denominator == w + n
    &&& d.retained.share_numerator == if w >= n { w } else { n }
    &&& d.suggestion == if group_limit { Suggestion::Inconclusive } else { d.retained.suggestion }
    &&& d.abstention == if group_limit {
        Some(Abstention::GroupLimit)
    } else if w + n < 32 {
        Some(Abstention::FewVotes)
    } else {
        None
    }
    &&& d.confidence_withheld == (d.suggestion == Suggestion::Inconclusive)
}

impl Collector {
    /// Summarizes every group and derives the spacing-filtered header-shape detection.
    pub fn finish(self) -> (r: Report)
        requires
            self.wf(),
        ensures
            stats_describe(r.stats@, self@),
            detection_describes(r.detection, self@),
            r.truncated == (self@.untracked_hits.0 > 0 || self@.untracked_hits.1 > 0),
            r.detection.raw_votes.0 == r.detection.retained.wide_votes + r.detection.excluded_periodic_votes.0
                + r.detection.untracked_votes.0,
            r.detection.raw_votes.1 == r.detection.retained.narrow_votes + r.detection.excluded_periodic_votes.1
                + r.detection.untracked_votes.1,
    {
        proof {
            lemma_kind_votes_split(self@.groups, Kind::Wide);
            lemma_kind_votes_split(self@.groups, Kind::Narrow);
        }
        let ghost gs = self@.groups;
        proof {
            assert(votes_within_hits(gs)) by {
                assert forall|i: int| 0 <= i < gs.len() implies (#[trigger] gs[i]).2.votes <= gs[i].2.hits by {
                    assert(self.groups@[i].2.wf());
                }
            }
            lemma_votes_bounded(gs);
        }
        let n = self.groups.len();
        let mut stats: Vec<(String, GroupStats)> = Vec::new();
        let mut excluded: (u64, u64) = (0, 0);
        let mut retained: (u64, u64) = (0, 0);
        let mut i: usize = 0;
        while i < n
            invariant
                self.wf(),
                gs == self@.groups,
                n == gs.len(),
                i <= n,
                stats@.len() == i,
                forall|j: int| 0 <= j < i ==> {
                    &&& (#[trigger] stats@[j]).0@ == spec_group_key(gs[j].0, gs[j].1)
                    &&& stats@[j].1.describes(gs[j].2)
                },
                excluded.0 == votes_of(gs.take(i as int), Kind::Wide, true),
                excluded.1 == votes_of(gs.take(i as int), Kind::Narrow, true),
                retained.0 == votes_of(gs.take(i as int), Kind::Wide, false),
                retained.1 == votes_of(gs.take(i as int), Kind::Narrow, false),
                votes_of(gs, Kind::Wide, true) + votes_of(gs, Kind::Wide, false) + votes_of(gs, Kind::Narrow, true)
                    + votes_of(gs, Kind::Narrow, false) <= u64::MAX,
            decreases n - i,
        {
            let entry = &self.groups[i];
            assert(gs[i as int] == (entry.0, entry.1, entry.2@));
            assert(entry.2.wf());
            let st = entry.2.finish();
            let key = group_key(entry.0, entry.1);
            proof {
                let t = gs.take(i + 1);
                assert(t.drop_last() =~= gs.take(i as int));
                assert(t.last() == gs[i as int]);
                lemma_votes_prefix(gs, i + 1, Kind::Wide, true);
                lemma_votes_prefix(gs, i + 1, Kind::Wide, false);
                lemma_votes_prefix(gs, i + 1, Kind::Narrow, true);
                lemma_votes_prefix(gs, i + 1, Kind::Narrow, false);
            }
            let votes = st.detection_votes;
            if st.periodic {
                match entry.0 {
                    Kind::Wide => excluded.0 = excluded.0 + votes,
                    Kind::Narrow => excluded.1 = excluded.1 + votes,
                }
            } else {
                match entry.0 {
                    Kind::Wide => retained.0 = retained.0 + votes,
                    Kind::Narrow => retained.1 = retained.1 + votes,
                }
            }
            stats.push((key, st));
            i = i + 1;
        }
        proof {
            assert(gs.take(n as int) =~= gs);
        }
        let vote = detection(retained.0, retained.1);
        let group_limit = self.untracked_votes.0 > 0 || self.untracked_votes.1 > 0;
        let suggestion = if group_limit {
            Suggestion::Inconclusive
        } else {
            vote.suggestion
        };
        let abstention = if group_limit {
            Some(Abstention::GroupLimit)
        } else if retained.0 + retained.1 < 32 {
            Some(Abstention::FewVotes)
        } else {
            None
        };
        let confidence_withheld = match suggestion {
            Suggestion::Inconclusive => true,
            _ => false,
        };
        Report {
            stats,
            detection: SpacingDetection {
                retained: vote,
                suggestion,
                confidence_withheld,
                raw_votes: self.raw_votes,
                excluded_periodic_votes: excluded,
                untracked_votes: self.untracked_votes,
                untracked_group_hits: self.untracked_hits,
                abstention,
            },
            truncated: self.untracked_hits.0 > 0 || self.untracked_hits.1 > 0,
        }
    }
}


/// A gap example lies inside the group's span and its gap is its positive distance.
pub open spec fn example_ok(g: GapExample, first: u64, last: u64) -> bool {
    &&& g.from >= first
    &&& g.to <= last
    &&& g.to >= g.from
    &&& g.to - g.from == g.gap
    &&& g.gap > 0
}

/// Consistency of stored group statistics with a capture of `heap_bytes` bytes.
pub open spec fn spec_validate(s: &GroupStats, heap_bytes: u64) -> bool {
    &&& s.hits > 0
    &&& s.hits <= heap_bytes / 8
    &&& s.detection_votes <= s.hits
    &&& s.total_gaps == s.hits - 1
    &&& s.sampled_gaps <= SAMPLE_GAPS
    &&& s.sampled_gaps == if s.total_gaps < SAMPLE_GAPS { s.total_gaps as int } else { SAMPLE_GAPS as int }
    &&& s.mode_sample_count <= s.sampled_gaps
    &&& s.first_offset <= s.last_offset
    &&& s.last_offset < heap_bytes
    &&& s.gap_examples@.len() <= EXAMPLES
    &&& forall|i: int| 0 <= i < s.gap_examples@.len() ==> example_ok(#[trigger] s.gap_examples@[i], s.first_offset, s.last_offset)
}

/// Checks stored group statistics against the capture size.
pub fn validate(stats: &GroupStats, heap_bytes: u64) -> (ok: bool)
    ensures
        ok == spec_validate(stats, heap_bytes),
{
    if !(stats.hits > 0 && stats.hits <= heap_bytes / 8 && stats.detection_votes <= stats.hits
        && stats.total_gaps == stats.hits - 1 && stats.sampled_gaps <= SAMPLE_GAPS) {
        return false;
    }
    let cap: u64 = if stats.total_gaps < SAMPLE_GAPS as u64 {
        stats.total_gaps
    } else {
        SAMPLE_GAPS as u64
    };
    if !(stats.sampled_gaps as u64 == cap && stats.mode_sample_count <= stats.sampled_gaps
        && stats.first_offset <= stats.last_offset && stats.last_offset < heap_bytes
        && stats.gap_examples.len() <= EXAMPLES) {
        return false;
    }
    let mut i: usize = 0;
    while i < stats.gap_examples.len()
        invariant
            i <= stats.gap_examples@.len(),
            forall|j: int| 0 <= j < i ==> example_ok(#[trigger] stats.gap_examples@[j], stats.first_offset, stats.last_offset),
        decreases stats.gap_examples@.len() - i,
    {
        let g = stats.gap_examples[i];
        if !(g.from >= stats.first_offset && g.to <= stats.last_offset && g.to >= g.from && g.to - g.from == g.gap && g.gap > 0) {
            return false;
        }
        i = i + 1;
    }
    true
}

/// The state of the group with this key, when it is tracked.
pub open spec fn group_at(gs: Seq<GroupEntry>, key: (Kind, u64)) -> Option<GroupView> {
    match find_group(gs, key) {
        Some(i) => Some(gs[i].2),
        None => None,
    }
}

proof fn lemma_find_unique(gs: Seq<GroupEntry>, j: int)
    requires
        keys_sorted(gs),
        0 <= j < gs.len(),
    ensures
        find_group(gs, entry_key(gs[j])) == Some(j),
{
    let key = entry_key(gs[j]);
    assert(0 <= j < gs.len() && entry_key(gs[j]) == key);
    let i = choose|i: int| 0 <= i < gs.len() && entry_key(#[trigger] gs[i]) == key;
    if i < j {
        assert(key_lt(entry_key(gs[i]), entry_key(gs[j])));
    } else if i > j {
        assert(key_lt(entry_key(gs[j]), entry_key(gs[i])));
    }
}

/// Law: one observation of `(kind, klass)` at `offset` adds its vote to the raw votes of
/// its width. A new key with all 4096 groups taken counts as untracked and leaves the
/// groups alone; otherwise the key's group (a fresh one for a new key) takes the hit, no
/// other group changes, and the groups stay ordered and at most 4096.
pub proof fn law_observe_effects(c: CollectorView, kind: Kind, klass: u64, offset: u64, vote: bool)
    requires
        keys_sorted(c.groups),
        c.groups.len() <= MAX_GROUPS,
    ensures
        ({
            let a = spec_collect_observe(c, kind, klass, offset, vote);
            let key = (kind, klass);
            let v: u64 = if vote { 1 } else { 0 };
            let dropped = group_at(c.groups, key) is None && c.groups.len() == MAX_GROUPS;
            &&& a.raw_votes == bump(c.raw_votes, kind, v)
            &&& a.groups.len() <= MAX_GROUPS
            &&& keys_sorted(a.groups)
            &&& dropped ==> a.groups == c.groups && a.untracked_votes == bump(c.untracked_votes, kind, v)
                && a.untracked_hits == bump(c.untracked_hits, kind, 1)
            &&& !dropped ==> {
                &&& group_at(a.groups, key) == Some(spec_observe(
                    match group_at(c.groups, key) { Some(g) => g, None => fresh_group(group_seed(kind, klass)) }, offset, vote))
                &&& forall|k2: (Kind, u64)| k2 != key ==> #[trigger] group_at(a.groups, k2) == group_at(c.groups, k2)
                &&& a.untracked_votes == c.untracked_votes
                &&& a.untracked_hits == c.untracked_hits
            }
        }),
{
    let a = spec_collect_observe(c, kind, klass, offset, vote);
    let key = (kind, klass);
    let gs = c.groups;
    match find_group(gs, key) {
        Some(i) => {
            let e = (kind, klass, spec_observe(gs[i].2, offset, vote));
            let ns = gs.update(i, e);
            assert(a.groups == ns);
            assert(entry_key(gs[i]) == key);
            assert forall|x: int, y: int| 0 <= x < y < ns.len() implies key_lt(entry_key(#[trigger] ns[x]), entry_key(#[trigger] ns[y])) by {
                assert(entry_key(ns[x]) == entry_key(gs[x]));
                assert(entry_key(ns[y]) == entry_key(gs[y]));
            }
            lemma_find_unique(ns, i);
            assert forall|k2: (Kind, u64)| k2 != key implies #[trigger] group_at(ns, k2) == group_at(gs, k2) by {
                if exists|m: int| 0 <= m < gs.len() && entry_key(#[trigger] gs[m]) == k2 {
                    let m = choose|m: int| 0 <= m < gs.len() && entry_key(#[trigger] gs[m]) == k2;
                    lemma_find_unique(gs, m);
                    assert(entry_key(ns[m]) == k2);
                    lemma_find_unique(ns, m);
                } else {
                    assert forall|m: int| 0 <= m < ns.len() implies entry_key(#[trigger] ns[m]) != k2 by {
                        assert(entry_key(ns[m]) == entry_key(gs[m]));
                    }
                }
            }
        },
        None => {
            if gs.len() < MAX_GROUPS {
                let p = insert_position(gs, key);
                lemma_filter_prefix_keys_back(gs, key, p);
                let e = (kind, klass, spec_observe(fresh_group(group_seed(kind, klass)), offset, vote));
                let ns = gs.insert(p, e);
                assert(a.groups == ns);
                assert forall|m: int| 0 <= m < gs.len() implies entry_key(#[trigger] gs[m]) != key by {}
                assert forall|x: int, y: int| 0 <= x < y < ns.len() implies key_lt(entry_key(#[trigger] ns[x]), entry_key(#[trigger] ns[y])) by {
                    if y < p {
                        assert(ns[x] == gs[x] && ns[y] == gs[y]);
                    } else if y == p {
                        assert(ns[x] == gs[x]);
                    } else if x == p {
                        assert(ns[y] == gs[y - 1]);
                        assert(!key_lt(entry_key(gs[y - 1]), key));
                        assert(entry_key(gs[y - 1]) != key);
                    } else if x < p {
                        assert(ns[x] == gs[x] && ns[y] == gs[y - 1]);
                    } else {
                        assert(ns[x] == gs[x - 1] && ns[y] == gs[y - 1]);
                    }
                }
                assert(entry_key(ns[p]) == key);
                lemma_find_unique(ns, p);
                assert forall|k2: (Kind, u64)| k2 != key implies #[trigger] group_at(ns, k2) == group_at(gs, k2) by {
                    if exists|m: int| 0 <= m < gs.len() && entry_key(#[trigger] gs[m]) == k2 {
                        let m = choose|m: int| 0 <= m < gs.len() && entry_key(#[trigger] gs[m]) == k2;
                        lemma_find_unique(gs, m);
                        let mm = if m < p { m } else { m + 1 };
                        assert(ns[mm] == gs[m]);
                        lemma_find_unique(ns, mm);
                    } else {
                        assert forall|m: int| 0 <= m < ns.len() implies entry_key(#[trigger] ns[m]) != k2 by {
                            if m < p {
                                assert(ns[m] == gs[m]);
                            } else if m > p {
                                assert(ns[m] == gs[m - 1]);
                            }
                        }
                    }
                }
            }
        },
    }
}

} // verus!
