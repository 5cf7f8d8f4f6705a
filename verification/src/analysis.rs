//! Header-shape detection from votes, payload-start format sniffing.
use vstd::prelude::*;

verus! {

/// The header-shape suggestion: never an automatic profile selection.
#[derive(Debug, Clone, Copy, PartialEq, Eq)]
pub enum Suggestion {
    Inconclusive,
    UncompressedKlass,
    CompressedKlass,
}

impl Suggestion {
    pub fn name(self) -> (r: &'static str)
        ensures
            r@ == (match self {
                Suggestion::Inconclusive => "inconclusive"@,
                Suggestion::UncompressedKlass => "uncompressed-klass"@,
                Suggestion::CompressedKlass => "compressed-klass"@,
            }),
    {
        match self {
            Suggestion::Inconclusive => "inconclusive",
            Suggestion::UncompressedKlass => "uncompressed-klass",
            Suggestion::CompressedKlass => "compressed-klass",
        }
    }
}

/// A vote between the wide (8-byte class word) and narrow (4-byte) header hypotheses.
/// The confidence is the winning vote share `share_numerator / share_denominator`
/// (zero without votes): a heuristic share, not a calibrated probability.
#[derive(Debug, Clone, Copy, PartialEq, Eq)]
pub struct VoteDetection {
    pub suggestion: Suggestion,
    pub share_numerator: u64,
    pub share_denominator: u64,
    pub wide_votes: u64,
    pub narrow_votes: u64,
}

/// Fewer than 32 votes, or a winning share below 0.8, is inconclusive; otherwise the
/// larger side wins (narrow on a tie).
pub open spec fn spec_suggestion(wide: u64, narrow: u64) -> Suggestion {
    let total = wide + narrow;
    let top = if wide >= narrow { wide } else { narrow };
    if total < 32 || top * 5 < total * 4 {
        Suggestion::Inconclusive
    } else if wide > narrow {
        Suggestion::UncompressedKlass
    } else {
        Suggestion::CompressedKlass
    }
}

/// Suggests a header shape from retained votes.
pub fn detection(wide: u64, narrow: u64) -> (d: VoteDetection)
    requires
        wide + narrow <= u64::MAX,
    ensures
        d.suggestion == spec_suggestion(wide, narrow),
        d.share_denominator == wide + narrow,
        d.share_numerator == if wide >= narrow { wide } else { narrow },
        d.wide_votes == wide,
        d.narrow_votes == narrow,
{
    let total = wide + narrow;
    let top = if wide >= narrow {
        wide
    } else {
        narrow
    };
    let suggestion = if total < 32 || (top as u128) * 5 < (total as u128) * 4 {
        Suggestion::Inconclusive
    } else if wide > narrow {
        Suggestion::UncompressedKlass
    } else {
        Suggestion::CompressedKlass
    };
    VoteDetection { suggestion, share_numerator: top, share_denominator: total, wide_votes: wide, narrow_votes: narrow }
}


/// `p` begins with `prefix`.
pub open spec fn has_prefix(p: Seq<u8>, prefix: Seq<u8>) -> bool {
    prefix.len() <= p.len() && p.take(prefix.len() as int) == prefix
}

/// A payload-start format hint: gzip (with a valid flag byte), JPEG (with a marker byte),
/// PNG (signature and IHDR), GIF87a/GIF89a, or a ZIP local header, each only with enough
/// bytes; never JKS or PEM from a magic or text marker alone.
pub open spec fn spec_sniff(p: Seq<u8>) -> Option<Seq<char>> {
    if p.len() >= 10 && has_prefix(p, seq![0x1fu8, 0x8b, 8]) && p[3] & 0xe0 == 0 {
        Some("gz"@)
    } else if p.len() >= 4 && has_prefix(p, seq![0xffu8, 0xd8, 0xff]) && 0xc0 <= p[3] <= 0xfe {
        Some("jpg"@)
    } else if p.len() >= 24 && has_prefix(p, seq![0x89u8, 0x50, 0x4e, 0x47, 0x0d, 0x0a, 0x1a, 0x0a, 0, 0, 0, 0x0d, 0x49, 0x48, 0x44, 0x52]) {
        Some("png"@)
    } else if p.len() >= 10 && (has_prefix(p, seq![0x47u8, 0x49, 0x46, 0x38, 0x37, 0x61]) || has_prefix(p, seq![0x47u8, 0x49, 0x46, 0x38, 0x39, 0x61])) {
        Some("gif"@)
    } else if p.len() >= 30 && has_prefix(p, seq![0x50u8, 0x4b, 3, 4]) {
        Some("zip"@)
    } else {
        None
    }
}

fn prefix_is(p: &[u8], prefix: &[u8]) -> (r: bool)
    ensures
        r == has_prefix(p@, prefix@),
{
    if prefix.len() > p.len() {
        return false;
    }
    let mut i: usize = 0;
    while i < prefix.len()
        invariant
            prefix@.len() <= p@.len(),
            i <= prefix@.len(),
            forall|k: int| 0 <= k < i ==> p@[k] == prefix@[k],
        decreases prefix@.len() - i,
    {
        if p[i] != prefix[i] {
            assert(p@.take(prefix@.len() as int)[i as int] != prefix@[i as int]);
            return false;
        }
        i = i + 1;
    }
    assert(p@.take(prefix@.len() as int) =~= prefix@);
    true
}

/// The format hint of a payload start (see [`spec_sniff`]).
pub fn sniff(p: &[u8]) -> (r: Option<&'static str>)
    ensures
        match spec_sniff(p@) {
            Some(k) => r matches Some(s) && s@ == k,
            None => r is None,
        },
{
    let gz: [u8; 3] = [0x1f, 0x8b, 8];
    let jpg: [u8; 3] = [0xff, 0xd8, 0xff];
    let png: [u8; 16] = [0x89, 0x50, 0x4e, 0x47, 0x0d, 0x0a, 0x1a, 0x0a, 0, 0, 0, 0x0d, 0x49, 0x48, 0x44, 0x52];
    let gif7: [u8; 6] = [0x47, 0x49, 0x46, 0x38, 0x37, 0x61];
    let gif9: [u8; 6] = [0x47, 0x49, 0x46, 0x38, 0x39, 0x61];
    let zip: [u8; 4] = [0x50, 0x4b, 3, 4];
    assert(gz@ == seq![0x1fu8, 0x8b, 8]);
    assert(jpg@ == seq![0xffu8, 0xd8, 0xff]);
    assert(png@ == seq![0x89u8, 0x50, 0x4e, 0x47, 0x0d, 0x0a, 0x1a, 0x0a, 0, 0, 0, 0x0d, 0x49, 0x48, 0x44, 0x52]);
    assert(gif7@ == seq![0x47u8, 0x49, 0x46, 0x38, 0x37, 0x61]);
    assert(gif9@ == seq![0x47u8, 0x49, 0x46, 0x38, 0x39, 0x61]);
    assert(zip@ == seq![0x50u8, 0x4b, 3, 4]);
    if p.len() >= 10 && prefix_is(p, &gz) && p[3] & 0xe0 == 0 {
        Some("gz")
    } else if p.len() >= 4 && prefix_is(p, &jpg) && 0xc0 <= p[3] && p[3] <= 0xfe {
        Some("jpg")
    } else if p.len() >= 24 && prefix_is(p, &png) {
        Some("png")
    } else if p.len() >= 10 && (prefix_is(p, &gif7) || prefix_is(p, &gif9)) {
        Some("gif")
    } else if p.len() >= 30 && prefix_is(p, &zip) {
        Some("zip")
    } else {
        None
    }
}

/// Law: a header-shape suggestion takes at least 32 votes and a winning share of at least
/// 80%; once made, it names the side with more votes: uncompressed exactly when the wide
/// votes outnumber the narrow ones, compressed exactly when the narrow votes are at least
/// as many.
pub proof fn law_majority_suggests(wide: u64, narrow: u64)
    ensures
        spec_suggestion(wide, narrow) !is Inconclusive ==> wide + narrow >= 32,
        spec_suggestion(wide, narrow) !is Inconclusive ==> (spec_suggestion(wide, narrow) is UncompressedKlass <==> wide > narrow),
        spec_suggestion(wide, narrow) !is Inconclusive ==> (spec_suggestion(wide, narrow) is CompressedKlass <==> narrow >= wide),
        spec_suggestion(wide, narrow) is UncompressedKlass ==> 5 * wide >= 4 * (wide + narrow),
        spec_suggestion(wide, narrow) is CompressedKlass ==> 5 * narrow >= 4 * (wide + narrow),
        wide + narrow >= 32 && 5 * wide >= 4 * (wide + narrow) && wide > narrow ==> spec_suggestion(wide, narrow) is UncompressedKlass,
        wide + narrow >= 32 && 5 * narrow >= 4 * (wide + narrow) ==> spec_suggestion(wide, narrow) is CompressedKlass,
{
}

} // verus!
