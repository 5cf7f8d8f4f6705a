//! Caller-owned regex packs: bounded compilation, names in reports, no built-in rules.
use vstd::prelude::*;
use vstd::string::StringSliceAdditionalSpecFns;
use crate::digest::{sha256, sha256_hex, spec_hex_bytes};
use crate::error::Error;
use crate::layout::utf8_len;
use crate::text::{chars_of, chars_eq};
use crate::counts::Counts;

verus! {

#[verifier::external_type_specification]
#[verifier::external_body]
pub struct ExRegexSet(regex::RegexSet);

/// The largest compiled program of a pack's set, in bytes.
pub const REGEX_SIZE_LIMIT: usize = 4194304;

/// The largest lazy DFA cache of a pack's set, in bytes.
pub const REGEX_DFA_SIZE_LIMIT: usize = 4194304;

/// The deepest nesting a pack's pattern may have.
pub const REGEX_NEST_LIMIT: u32 = 64;

/// The patterns a compiled set holds, in order.
pub uninterp spec fn set_patterns(s: regex::RegexSet) -> Seq<Seq<char>>;

/// Whether a pattern matches somewhere in a text.
pub uninterp spec fn pattern_matches(pattern: Seq<char>, text: Seq<char>) -> bool;

/// `RegexSetBuilder::new(patterns)` with the given size, DFA size and nesting limits, then
/// `build`: a set holding exactly the patterns, in order, when it compiles. Whether it
/// compiles is not stated: the size limits are measured in memory whose layout depends
/// on the target.
#[verifier::external_body]
fn build_set(patterns: &Vec<String>, size_limit: usize, dfa_size_limit: usize, nest_limit: u32) -> (r: Option<regex::RegexSet>)
    ensures
        r matches Some(s) ==> set_patterns(s) == patterns@.map_values(|p: String| p@),
{
    regex::RegexSetBuilder::new(patterns.iter())
        .size_limit(size_limit)
        .dfa_size_limit(dfa_size_limit)
        .nest_limit(nest_limit)
        .build()
        .ok()
}

/// The indices below `upto` of the patterns that match the text, ascending.
pub open spec fn matched_indices(pats: Seq<Seq<char>>, text: Seq<char>, upto: int) -> Seq<usize>
    decreases upto,
{
    if upto <= 0 {
        Seq::empty()
    } else {
        let rest = matched_indices(pats, text, upto - 1);
        if pattern_matches(pats[upto - 1], text) { rest.push((upto - 1) as usize) } else { rest }
    }
}

proof fn lemma_matched_bound(pats: Seq<Seq<char>>, text: Seq<char>, upto: int)
    ensures
        forall|i: int| 0 <= i < matched_indices(pats, text, upto).len() ==> (#[trigger] matched_indices(pats, text, upto)[i]) < upto,
    decreases upto,
{
    if upto > 0 {
        lemma_matched_bound(pats, text, upto - 1);
        let rest = matched_indices(pats, text, upto - 1);
        let m = matched_indices(pats, text, upto);
        assert forall|i: int| 0 <= i < m.len() implies (#[trigger] m[i]) < upto by {
            if i < rest.len() {
                assert(m[i] == rest[i]);
            }
        }
    }
}

/// `RegexSet::matches`: the indices of the patterns that match the text, ascending.
#[verifier::external_body]
fn set_matches(s: &regex::RegexSet, text: &str) -> (r: Vec<usize>)
    ensures
        r@ == matched_indices(set_patterns(*s), text@, set_patterns(*s).len() as int),
        forall|k: int| 0 <= k < set_patterns(*s).len() ==> (r@.contains(k as usize) <==> pattern_matches(set_patterns(*s)[k], text@)),
{
    s.matches(text).iter().collect()
}

/// A name character: ASCII letter or digit, `_`, `.` or `-`.
pub open spec fn name_char(c: char) -> bool {
    ('a' <= c && c <= 'z') || ('A' <= c && c <= 'Z') || ('0' <= c && c <= '9') || c == '_' || c == '.' || c == '-'
}

/// A pattern name of 1..64 name characters.
pub open spec fn name_ok(n: Seq<char>) -> bool {
    1 <= n.len() <= 64 && forall|i: int| 0 <= i < n.len() ==> name_char(#[trigger] n[i])
}

/// The patterns' names are valid and distinct, and each regex has 1..2048 bytes.
pub open spec fn patterns_ok(ps: Seq<(Seq<char>, Seq<char>)>) -> bool {
    &&& forall|i: int| 0 <= i < ps.len() ==> name_ok(#[trigger] ps[i].0) && 1 <= utf8_len(ps[i].1) <= 2048
    &&& forall|i: int, j: int| 0 <= i < j < ps.len() ==> #[trigger] ps[i].0 != #[trigger] ps[j].0
}

proof fn lemma_pattern_ok_at(ps: Seq<(Seq<char>, Seq<char>)>, i: int)
    requires
        patterns_ok(ps),
        0 <= i < ps.len(),
    ensures
        name_ok(ps[i].0),
        1 <= utf8_len(ps[i].1) <= 2048,
{
    let p = ps[i];
    assert(name_ok(p.0) && 1 <= utf8_len(p.1));
    assert(utf8_len(p.1) <= 2048);
}

/// A compiled regex pack: pattern names, the compiled set, and the pack file's digest.
pub struct Pack {
    names: Vec<String>,
    expressions: regex::RegexSet,
    sha256: String,
}

/// Refuses a pack file over 64 KiB.
pub fn check_pack_size(len: usize) -> (r: Result<(), Error>)
    ensures
        len > 65536 ==> r == Err::<(), Error>(Error::RegexPackTooLarge),
        len <= 65536 ==> r is Ok,
{
    if len > 65536 {
        return Err(Error::RegexPackTooLarge);
    }
    Ok(())
}

fn name_valid(n: &str) -> (r: bool)
    ensures
        r == name_ok(n@),
{
    let cs = chars_of(n);
    if cs.len() == 0 || cs.len() > 64 {
        return false;
    }
    let mut i: usize = 0;
    while i < cs.len()
        invariant
            i <= cs@.len(),
            cs@ == n@,
            forall|k: int| 0 <= k < i ==> name_char(#[trigger] cs@[k]),
        decreases cs@.len() - i,
    {
        let c = cs[i];
        if !(('a' <= c && c <= 'z') || ('A' <= c && c <= 'Z') || ('0' <= c && c <= '9') || c == '_' || c == '.' || c == '-') {
            return false;
        }
        i = i + 1;
    }
    true
}

impl Pack {
    pub closed spec fn names(&self) -> Seq<Seq<char>> {
        self.names@.map_values(|s: String| s@)
    }

    /// The compiled patterns, in pack order.
    pub closed spec fn regexes(&self) -> Seq<Seq<char>> {
        set_patterns(self.expressions)
    }

    pub closed spec fn digest(&self) -> Seq<char> {
        self.sha256@
    }

    pub closed spec fn wf(&self) -> bool {
        &&& set_patterns(self.expressions).len() == self.names@.len()
        &&& forall|a: int, b: int| 0 <= a < b < self.names@.len() ==> #[trigger] self.names@[a]@ != #[trigger] self.names@[b]@
    }

    /// Builds a pack from a parsed definition and the pack file's bytes: at most 64 KiB,
    /// version 1 with 1..64 patterns, valid distinct names and bounded regexes; the set is
    /// then compiled with the pack's limits, and a set that does not compile is refused.
    pub fn build(version: u32, patterns: &Vec<(String, String)>, bytes: &[u8]) -> (r: Result<Pack, Error>)
        ensures
            bytes@.len() > 65536 ==> r == Err::<Pack, Error>(Error::RegexPackTooLarge),
            bytes@.len() <= 65536 && (version != 1 || patterns@.len() == 0 || patterns@.len() > 64)
                ==> r == Err::<Pack, Error>(Error::RegexPackShape),
            bytes@.len() <= 65536 && !(version != 1 || patterns@.len() == 0 || patterns@.len() > 64)
                && !patterns_ok(patterns@.map_values(|p: (String, String)| (p.0@, p.1@))) ==> r == Err::<Pack, Error>(Error::RegexPackNames),
            bytes@.len() <= 65536 && !(version != 1 || patterns@.len() == 0 || patterns@.len() > 64)
                && patterns_ok(patterns@.map_values(|p: (String, String)| (p.0@, p.1@))) ==> match r {
                    Ok(p) => p.wf() && p.names() == patterns@.map_values(|p: (String, String)| p.0@)
                        && p.regexes() == patterns@.map_values(|p: (String, String)| p.1@)
                        && p.digest() == spec_hex_bytes(sha256(bytes@)),
                    Err(e) => e == Error::RegexPackInvalid,
                },
    {
        if let Err(e) = check_pack_size(bytes.len()) {
            return Err(e);
        }
        if version != 1 || patterns.len() == 0 || patterns.len() > 64 {
            return Err(Error::RegexPackShape);
        }
        let ghost ps = patterns@.map_values(|p: (String, String)| (p.0@, p.1@));
        let mut names: Vec<String> = Vec::new();
        let mut regexes: Vec<String> = Vec::new();
        let mut i: usize = 0;
        while i < patterns.len()
            invariant
                i <= patterns@.len(),
                !(version != 1 || patterns@.len() == 0 || patterns@.len() > 64),
                bytes@.len() <= 65536,
                ps == patterns@.map_values(|p: (String, String)| (p.0@, p.1@)),
                names@.len() == i,
                regexes@.len() == i,
                forall|k: int| 0 <= k < i ==> (#[trigger] names@[k])@ == ps[k].0,
                forall|k: int| 0 <= k < i ==> (#[trigger] regexes@[k])@ == ps[k].1,
                forall|k: int| 0 <= k < i ==> name_ok(#[trigger] ps[k].0) && 1 <= utf8_len(ps[k].1) <= 2048,
                forall|a: int, b: int| 0 <= a < b < i ==> #[trigger] ps[a].0 != #[trigger] ps[b].0,
            decreases patterns@.len() - i,
        {
            let name = patterns[i].0.as_str();
            let regex = patterns[i].1.as_str();
            let mut dup = false;
            let mut j: usize = 0;
            while j < i
                invariant
                    j <= i,
                    i < patterns@.len(),
                    names@.len() == i,
                    ps == patterns@.map_values(|p: (String, String)| (p.0@, p.1@)),
                    forall|k: int| 0 <= k < i ==> (#[trigger] names@[k])@ == ps[k].0,
                    dup == exists|k: int| 0 <= k < j && ps[k].0 == name@,
                decreases i - j,
            {
                if crate::text::str_eq(names[j].as_str(), name) {
                    dup = true;
                }
                j = j + 1;
            }
            let rlen = regex.as_bytes().len();
            assert(regex.spec_bytes().len() == utf8_len(regex@));
            if !name_valid(name) || dup || rlen == 0 || rlen > 2048 {
                proof {
                    assert(ps[i as int] == (name@, regex@));
                    if patterns_ok(ps) {
                        if dup {
                            let k = choose|k: int| 0 <= k < i && ps[k].0 == name@;
                            assert(ps[k].0 == ps[i as int].0);
                            assert(ps[k].0 != ps[i as int].0);
                        } else {
                            lemma_pattern_ok_at(ps, i as int);
                        }
                    }
                }
                return Err(Error::RegexPackNames);
            }
            names.push(name.to_owned());
            regexes.push(regex.to_owned());
            i = i + 1;
        }
        assert(regexes@.map_values(|p: String| p@) =~= patterns@.map_values(|p: (String, String)| p.1@));
        assert(names@.map_values(|p: String| p@) =~= patterns@.map_values(|p: (String, String)| p.0@));
        let expressions = match build_set(&regexes, REGEX_SIZE_LIMIT, REGEX_DFA_SIZE_LIMIT, REGEX_NEST_LIMIT) {
            Some(s) => s,
            None => {
                return Err(Error::RegexPackInvalid);
            },
        };
        let sha = sha256_hex(bytes);
        proof {
            assert forall|a: int, b: int| 0 <= a < b < names@.len() implies #[trigger] names@[a]@ != #[trigger] names@[b]@ by {
                assert(names@[a]@ == ps[a].0);
                assert(names@[b]@ == ps[b].0);
            }
        }
        Ok(Pack { names, expressions, sha256: sha })
    }

    /// The names of the patterns that match the text, in pack order.
    pub fn matches(&self, text: &str) -> (r: Vec<String>)
        requires
            self.wf(),
        ensures
            r@.map_values(|s: String| s@) == matched_indices(self.regexes(), text@, self.regexes().len() as int).map_values(|k: usize| self.names()[k as int]),
    {
        let hits = set_matches(&self.expressions, text);
        proof {
            lemma_matched_bound(self.regexes(), text@, self.regexes().len() as int);
        }
        let mut out: Vec<String> = Vec::new();
        let mut i: usize = 0;
        while i < hits.len()
            invariant
                i <= hits@.len(),
                self.wf(),
                forall|k: int| 0 <= k < hits@.len() ==> hits@[k] < set_patterns(self.expressions).len(),
                out@.len() == i,
                forall|k: int| 0 <= k < i ==> (#[trigger] out@[k])@ == self.names()[hits@[k] as int],
            decreases hits@.len() - i,
        {
            out.push(self.names[hits[i]].clone());
            i = i + 1;
        }
        assert(out@.map_values(|s: String| s@) =~= hits@.map_values(|k: usize| self.names()[k as int]));
        out
    }

    /// The pattern names in pack order.
    pub fn pattern_names(&self) -> (r: &Vec<String>)
        ensures
            r@.map_values(|s: String| s@) == self.names(),
    {
        &self.names
    }

    /// The pack file's hexadecimal SHA-256.
    pub fn sha256(&self) -> (r: &str)
        ensures
            r@ == self.digest(),
    {
        self.sha256.as_str()
    }
}

/// The names of the patterns of a pack that match a text, in pack order.
pub open spec fn matched_names(p: &Pack, text: Seq<char>) -> Seq<Seq<char>> {
    matched_indices(p.regexes(), text, p.regexes().len() as int).map_values(|k: usize| p.names()[k as int])
}

proof fn lemma_matched_increasing(pats: Seq<Seq<char>>, text: Seq<char>, upto: int)
    requires
        upto <= usize::MAX,
    ensures
        forall|i: int, j: int| 0 <= i < j < matched_indices(pats, text, upto).len()
            ==> #[trigger] matched_indices(pats, text, upto)[i] < #[trigger] matched_indices(pats, text, upto)[j],
    decreases upto,
{
    if upto > 0 {
        lemma_matched_increasing(pats, text, upto - 1);
        lemma_matched_bound(pats, text, upto - 1);
        let rest = matched_indices(pats, text, upto - 1);
        let m = matched_indices(pats, text, upto);
        if pattern_matches(pats[upto - 1], text) {
            assert(m == rest.push((upto - 1) as usize));
            assert forall|i: int, j: int| 0 <= i < j < m.len() implies #[trigger] m[i] < #[trigger] m[j] by {
                assert(m[i] == rest[i]);
                assert(rest[i] < upto - 1);
                if j < rest.len() {
                    assert(m[j] == rest[j]);
                } else {
                    assert(m[j] == (upto - 1) as usize);
                    assert((upto - 1) as usize == upto - 1);
                }
            }
        } else {
            assert(m == rest);
        }
    }
}

/// Changed texts per matching pattern name.
#[derive(Debug)]
pub struct PatternTally {
    hits: Counts,
    texts: u64,
}

impl PatternTally {
    /// Texts counted per pattern name.
    pub closed spec fn tally(&self) -> Counts {
        self.hits
    }

    /// Texts offered so far.
    pub closed spec fn texts(&self) -> nat {
        self.texts as nat
    }

    pub closed spec fn wf(&self) -> bool {
        &&& self.hits.wf()
        &&& forall|n: Seq<char>| #[trigger] self.hits.get(n).0 <= self.texts
    }

    pub fn new() -> (t: PatternTally)
        ensures
            t.wf(),
            t.texts() == 0,
            t.tally().view_entries().len() == 0,
    {
        PatternTally { hits: Counts::new(), texts: 0 }
    }

    /// Counts one text under every pattern name of `pack` that matches it; returns those
    /// names in pack order.
    pub fn record(&mut self, pack: &Pack, text: &str) -> (r: Vec<String>)
        requires
            old(self).wf(),
            old(self).texts() < u64::MAX,
            pack.wf(),
        ensures
            final(self).wf(),
            final(self).texts() == old(self).texts() + 1,
            r@.map_values(|s: String| s@) == matched_names(pack, text@),
            forall|n: Seq<char>| #[trigger] final(self).tally().get(n) == if matched_names(pack, text@).contains(n) {
                ((old(self).tally().get(n).0 + 1) as u64, old(self).tally().get(n).1)
            } else {
                old(self).tally().get(n)
            },
    {
        let r = pack.matches(text);
        let pattern_count = pack.names.len();
        let ghost names = r@.map_values(|s: String| s@);
        let ghost h0 = self.hits;
        proof {
            assert(pack.regexes().len() == pattern_count);
            lemma_matched_increasing(pack.regexes(), text@, pack.regexes().len() as int);
            lemma_matched_bound(pack.regexes(), text@, pack.regexes().len() as int);
            assert forall|a: int, b: int| 0 <= a < b < names.len() implies #[trigger] names[a] != #[trigger] names[b] by {
                let ix = matched_indices(pack.regexes(), text@, pack.regexes().len() as int);
                assert(ix[a] < ix[b]);
                assert(names[a] == pack.names()[ix[a] as int]);
                assert(names[b] == pack.names()[ix[b] as int]);
                assert(pack.names()[ix[a] as int] == pack.names@[ix[a] as int]@);
            }
        }
        let mut j: usize = 0;
        while j < r.len()
            invariant
                j <= r@.len(),
                names == r@.map_values(|s: String| s@),
                forall|a: int, b: int| 0 <= a < b < names.len() ==> #[trigger] names[a] != #[trigger] names[b],
                self.hits.wf(),
                self.texts == old(self).texts,
                forall|n: Seq<char>| #[trigger] h0.get(n).0 <= self.texts,
                self.texts < u64::MAX,
                forall|n: Seq<char>| #[trigger] self.hits.get(n) == if names.take(j as int).contains(n) {
                    ((h0.get(n).0 + 1) as u64, h0.get(n).1)
                } else {
                    h0.get(n)
                },
            decreases r@.len() - j,
        {
            let ghost nj = names[j as int];
            proof {
                if names.take(j as int).contains(nj) {
                    let k = choose|k: int| 0 <= k < j && #[trigger] names.take(j as int)[k] == nj;
                    assert(names[k] == names[j as int]);
                }
                assert(h0.get(nj).0 <= self.texts);
            }
            let ghost before = self.hits;
            assert(r[j as int]@ == nj);
            assert(before.get(nj) == h0.get(nj));
            self.hits.bump(r[j].as_str());
            proof {
                assert(names.take(j + 1) =~= names.take(j as int).push(nj));
                assert(names.take(j + 1)[j as int] == nj);
                assert forall|n: Seq<char>| #[trigger] self.hits.get(n) == if names.take(j + 1).contains(n) {
                    ((h0.get(n).0 + 1) as u64, h0.get(n).1)
                } else {
                    h0.get(n)
                } by {
                    if n == nj {
                        assert(names.take(j + 1).contains(n));
                    } else {
                        assert(self.hits.get(n) == before.get(n));
                        if names.take(j as int).contains(n) {
                            let k = choose|k: int| 0 <= k < j && #[trigger] names.take(j as int)[k] == n;
                            assert(names.take(j + 1)[k] == n);
                        }
                    }
                    if n != nj && names.take(j + 1).contains(n) {
                        let k = choose|k: int| 0 <= k < j + 1 && #[trigger] names.take(j + 1)[k] == n;
                        assert(names.take(j as int)[k] == n);
                    }
                }
            }
            j = j + 1;
        }
        self.texts = self.texts + 1;
        proof {
            assert(names.take(names.len() as int) =~= names);
            assert forall|n: Seq<char>| #[trigger] self.hits.get(n).0 <= self.texts by {
                assert(h0.get(n).0 <= self.texts - 1);
            }
        }
        r
    }

    /// The texts counted per pattern name.
    pub fn counts(&self) -> (c: &Counts)
        ensures
            *c == self.tally(),
    {
        &self.hits
    }

    /// The number of texts offered.
    pub fn offered(&self) -> (n: u64)
        ensures
            n == self.texts(),
    {
        self.texts
    }
}

} // verus!
