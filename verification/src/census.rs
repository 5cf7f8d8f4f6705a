//! Header-validated byte[] content census: payload classification by format hint, JSON,
//! UTF-8 status and printable share. Encoding anomalies do not establish GC tearing.
use vstd::prelude::*;
use crate::analysis::{has_prefix, sniff, spec_sniff};
use crate::encoding::{Unit, spec_unit, spec_status, spec_status_from, spec_lossy, spec_lossy_from, unit_at};
use crate::error::Error;
use crate::jstring::char_from_scalar;
use crate::layout::CHUNK;
use crate::lines::{is_ws, is_ws_exec};
use crate::text::string_from_chars;

verus! {

/// Census bounds: the largest payload analysed whole, and the region size of the counts.
#[derive(Debug, Clone, Copy, PartialEq, Eq)]
pub struct Options {
    pub max_bytes: u64,
    pub region_bytes: u64,
}

impl Default for Options {
    fn default() -> (o: Options)
        ensures
            o.max_bytes == CHUNK,
            o.region_bytes == 67108864,
    {
        Options { max_bytes: CHUNK as u64, region_bytes: 67108864 }
    }
}

impl Options {
    /// Refuses a payload bound outside 1 byte..1 MiB, then a region size outside 16 MiB..1 GiB.
    pub fn validate(self) -> (r: Result<(), Error>)
        ensures
            !(1 <= self.max_bytes <= CHUNK) ==> r == Err::<(), Error>(Error::CensusMaxBytes),
            (1 <= self.max_bytes <= CHUNK) && !(16777216 <= self.region_bytes <= 1073741824) ==> r == Err::<(), Error>(Error::RegionBytes),
            (1 <= self.max_bytes <= CHUNK) && (16777216 <= self.region_bytes <= 1073741824) ==> r is Ok,
    {
        if !(1 <= self.max_bytes && self.max_bytes <= CHUNK as u64) {
            return Err(Error::CensusMaxBytes);
        }
        if !(16777216 <= self.region_bytes && self.region_bytes <= 1073741824) {
            return Err(Error::RegionBytes);
        }
        Ok(())
    }
}

/// A census format name from a payload start: the format hint (named `jpeg` and `gzip`), or
/// `pdf` for `%PDF-`.
pub open spec fn spec_magic(b: Seq<u8>) -> Option<Seq<char>> {
    match spec_sniff(b) {
        Some(k) => Some(if k == "jpg"@ { "jpeg"@ } else if k == "gz"@ { "gzip"@ } else { k }),
        None => if has_prefix(b, seq![0x25u8, 0x50, 0x44, 0x46, 0x2d]) { Some("pdf"@) } else { None },
    }
}

pub fn magic(b: &[u8]) -> (r: Option<&'static str>)
    ensures
        match spec_magic(b@) {
            Some(k) => r matches Some(s) && s@ == k,
            None => r is None,
        },
{
    match sniff(b) {
        Some(k) => {
            proof {
                reveal_strlit("jpg");
                reveal_strlit("gz");
                reveal_strlit("png");
                reveal_strlit("gif");
                reveal_strlit("zip");
            }
            if crate::text::str_eq(k, "jpg") {
                Some("jpeg")
            } else if crate::text::str_eq(k, "gz") {
                Some("gzip")
            } else {
                Some(k)
            }
        },
        None => {
            let pdf: [u8; 5] = [0x25, 0x50, 0x44, 0x46, 0x2d];
            assert(pdf@ == seq![0x25u8, 0x50, 0x44, 0x46, 0x2d]);
            let mut ok = pdf.len() <= b.len();
            let mut i: usize = 0;
            while ok && i < 5
                invariant
                    pdf@ == seq![0x25u8, 0x50, 0x44, 0x46, 0x2d],
                    i <= 5,
                    ok ==> 5 <= b@.len() && forall|k: int| 0 <= k < i ==> b@[k] == pdf@[k],
                    !ok ==> !has_prefix(b@, pdf@),
                decreases 5 - i,
            {
                if b[i] != pdf[i] {
                    assert(b@.take(5)[i as int] != pdf@[i as int]);
                    ok = false;
                }
                i = i + 1;
            }
            if ok {
                assert(b@.take(5) =~= pdf@);
                Some("pdf")
            } else {
                None
            }
        },
    }
}

/// `char::is_control`: the C0 and C1 control characters.
pub open spec fn is_control(c: char) -> bool {
    c <= '\u{1f}' || ('\u{7f}' <= c && c <= '\u{9f}')
}

/// A printable character: not U+FFFD, and not a control other than TAB, CR or LF.
pub open spec fn printable(c: char) -> bool {
    c != '\u{fffd}' && (!is_control(c) || c == '\n' || c == '\r' || c == '\t')
}

/// Printable characters in a sequence.
pub open spec fn printable_count(s: Seq<char>) -> nat
    decreases s.len(),
{
    if s.len() == 0 {
        0
    } else {
        printable_count(s.drop_last()) + if printable(s.last()) { 1nat } else { 0nat }
    }
}

/// A sequence without its leading Unicode white space.
pub open spec fn trim_start(s: Seq<char>) -> Seq<char>
    decreases s.len(),
{
    if s.len() > 0 && is_ws(s[0]) {
        trim_start(s.drop_first())
    } else {
        s
    }
}

/// Whether `serde_json` parses a text as one JSON value.
pub uninterp spec fn json_parses(text: Seq<char>) -> bool;

/// `serde_json::from_str::<Value>`: whether the text is one JSON value.
#[verifier::external_body]
fn json_value_parses(text: &str) -> (r: bool)
    ensures
        r == json_parses(text@),
{
    serde_json::from_str::<serde_json::Value>(text).is_ok()
}

/// A payload's classification.
#[derive(Debug, Clone, Copy, PartialEq, Eq)]
pub struct Classification {
    pub kind: &'static str,
    pub band: &'static str,
    pub utf8: &'static str,
    pub text_like_anomaly: bool,
}

/// The printable-share band of `printable` out of `total` characters.
pub open spec fn spec_band(printable: nat, total: nat) -> Seq<char> {
    if printable * 100 >= total * 95 {
        "95-100%"@
    } else if printable * 100 >= total * 80 {
        "80-95%"@
    } else if printable * 2 >= total {
        "50-80%"@
    } else {
        "0-50%"@
    }
}

/// The UTF-8 status names.
pub open spec fn status_name(s: u8) -> Seq<char> {
    if s == 0 {
        "valid"@
    } else if s == 1 {
        "incomplete-tail"@
    } else {
        "invalid-sequence"@
    }
}

/// Whether a payload is one JSON object or array: valid UTF-8 whose text, after leading
/// white space, starts with `{` or `[` and parses.
pub open spec fn spec_json(b: Seq<u8>) -> bool {
    let t = trim_start(spec_lossy(b));
    spec_status(b) == 0 && t.len() > 0 && (t[0] == '{' || t[0] == '[') && json_parses(t)
}

/// The classification of a payload: empty; else a format hint, JSON, text-like invalid
/// UTF-8 (at least 80% printable), text (valid and at least 95% printable), mixed (at least
/// 80%), or binary. Printable shares count the characters of lossy decoding.
pub open spec fn spec_classify(b: Seq<u8>) -> (Seq<char>, Seq<char>, Seq<char>, bool) {
    if b.len() == 0 {
        ("empty"@, "empty"@, "valid"@, false)
    } else {
        let text = spec_lossy(b);
        let total = text.len();
        let p = printable_count(text);
        let status = spec_status(b);
        let high = p * 100 >= total * 95;
        let medium = p * 100 >= total * 80;
        let m = spec_magic(b);
        let kind = if m is Some {
            m->0
        } else if spec_json(b) {
            "json"@
        } else if status != 0 && medium {
            "text-like-invalid-utf8"@
        } else if status == 0 && high {
            "text"@
        } else if medium {
            "mixed"@
        } else {
            "binary"@
        };
        (kind, spec_band(p, total), status_name(status), m is None && status != 0 && medium)
    }
}

proof fn lemma_printable_push(s: Seq<char>, c: char)
    ensures
        printable_count(s.push(c)) == printable_count(s) + if printable(c) { 1nat } else { 0nat },
{
    assert(s.push(c).drop_last() =~= s);
}

proof fn lemma_printable_bound(s: Seq<char>)
    ensures
        printable_count(s) <= s.len(),
    decreases s.len(),
{
    if s.len() > 0 {
        lemma_printable_bound(s.drop_last());
    }
}

/// Decodes a payload: the lossy characters, the strict status, and the printable count.
pub fn decode(b: &[u8]) -> (r: (Vec<char>, u8, u64))
    ensures
        r.0@ == spec_lossy(b@),
        r.1 == spec_status(b@),
        r.2 == printable_count(spec_lossy(b@)),
{
    let n = b.len();
    let mut out: Vec<char> = Vec::new();
    let mut status: u8 = 0;
    let mut count: u64 = 0;
    let mut i: usize = 0;
    while i < n
        invariant
            n == b@.len(),
            i <= n,
            out@.len() <= i,
            out@ + spec_lossy_from(b@, i as int) == spec_lossy(b@),
            status == 0 ==> spec_status_from(b@, i as int) == spec_status(b@),
            status != 0 ==> status == spec_status(b@),
            count == printable_count(out@),
        decreases n - i,
    {
        let u = unit_at(b, i);
        let ghost before = out@;
        proof {
            lemma_printable_bound(out@);
        }
        match u {
            Unit::Scalar(v, l) => {
                let c = match char_from_scalar(v) {
                    Some(c) => c,
                    None => {
                        assert(false);
                        ' '
                    },
                };
                out.push(c);
                proof {
                    lemma_printable_push(before, c);
                    assert(before + spec_lossy_from(b@, i as int) == before.push(c) + spec_lossy_from(b@, i + l));
                }
                let is_control = c <= '\u{1f}' || ('\u{7f}' <= c && c <= '\u{9f}');
                if c != '\u{fffd}' && (!is_control || c == '\n' || c == '\r' || c == '\t') {
                    count = count + 1;
                }
                i = i + l;
            },
            Unit::Invalid(l) => {
                out.push('\u{fffd}');
                proof {
                    lemma_printable_push(before, '\u{fffd}');
                    assert(before + spec_lossy_from(b@, i as int) == before.push('\u{fffd}') + spec_lossy_from(b@, i + l));
                }
                if status == 0 {
                    status = 2;
                }
                i = i + l;
            },
            Unit::Truncated => {
                out.push('\u{fffd}');
                proof {
                    lemma_printable_push(before, '\u{fffd}');
                    assert(before + spec_lossy_from(b@, i as int) == before.push('\u{fffd}'));
                }
                if status == 0 {
                    status = 1;
                }
                i = n;
            },
        }
    }
    (out, status, count)
}


proof fn lemma_trim_skip(s: Seq<char>, k: int)
    requires
        0 <= k <= s.len(),
        forall|j: int| 0 <= j < k ==> is_ws(#[trigger] s[j]),
        k < s.len() ==> !is_ws(s[k]),
    ensures
        trim_start(s) == s.skip(k),
    decreases k,
{
    if k == 0 {
        assert(s.skip(0) =~= s);
    } else {
        assert(is_ws(s[0]));
        lemma_trim_skip(s.drop_first(), k - 1);
        assert(s.drop_first().skip(k - 1) =~= s.skip(k));
    }
}

/// Classifies a payload (see [`spec_classify`]).
pub fn classify(b: &[u8]) -> (c: Classification)
    ensures
        (c.kind@, c.band@, c.utf8@, c.text_like_anomaly) == spec_classify(b@),
{
    if b.len() == 0 {
        return Classification { kind: "empty", band: "empty", utf8: "valid", text_like_anomaly: false };
    }
    let (chars, status, p) = decode(b);
    let ghost text = spec_lossy(b@);
    let total = chars.len() as u64;
    proof {
        lemma_printable_bound(text);
    }
    let p128 = p as u128;
    let t128 = total as u128;
    let high = p128 * 100 >= t128 * 95;
    let medium = p128 * 100 >= t128 * 80;
    let band = if high {
        "95-100%"
    } else if medium {
        "80-95%"
    } else if p128 * 2 >= t128 {
        "50-80%"
    } else {
        "0-50%"
    };
    let utf8 = if status == 0 {
        "valid"
    } else if status == 1 {
        "incomplete-tail"
    } else {
        "invalid-sequence"
    };
    let m = magic(b);
    let json = if status == 0 {
        let mut k: usize = 0;
        while k < chars.len() && is_ws_exec(chars[k])
            invariant
                k <= chars@.len(),
                forall|j: int| 0 <= j < k ==> is_ws(#[trigger] chars@[j]),
            decreases chars@.len() - k,
        {
            k = k + 1;
        }
        proof {
            lemma_trim_skip(chars@, k as int);
        }
        if k < chars.len() && (chars[k] == '{' || chars[k] == '[') {
            let rest = vstd::slice::slice_subrange(chars.as_slice(), k, chars.len());
            assert(rest@ =~= chars@.skip(k as int));
            let t = string_from_chars(rest);
            json_value_parses(t.as_str())
        } else {
            false
        }
    } else {
        false
    };
    let kind = match m {
        Some(k) => k,
        None => if json {
            "json"
        } else if status != 0 && medium {
            "text-like-invalid-utf8"
        } else if status == 0 && high {
            "text"
        } else if medium {
            "mixed"
        } else {
            "binary"
        },
    };
    Classification { kind, band, utf8, text_like_anomaly: m.is_none() && status != 0 && medium }
}

proof fn lemma_kind_is_magic(b: Seq<u8>)
    requires
        spec_magic(b) is Some,
        b.len() > 0,
    ensures
        spec_classify(b).0 == spec_magic(b)->0,
{
}

/// Law: a payload whose start the format sniffer recognizes keeps that format's name as
/// its census format, but for `jpg` (counted as `jpeg`) and `gz` (counted as `gzip`):
/// a sniffed `png`, `gif` or `zip` stays `png`, `gif` or `zip`, and the census kind of the
/// payload is that name.
pub proof fn law_census_keeps_sniffed_format(b: Seq<u8>)
    ensures
        spec_sniff(b) == Some("png"@) ==> spec_magic(b) == Some("png"@) && spec_classify(b).0 == "png"@,
        spec_sniff(b) == Some("gif"@) ==> spec_magic(b) == Some("gif"@) && spec_classify(b).0 == "gif"@,
        spec_sniff(b) == Some("zip"@) ==> spec_magic(b) == Some("zip"@) && spec_classify(b).0 == "zip"@,
        spec_sniff(b) == Some("jpg"@) ==> spec_magic(b) == Some("jpeg"@) && spec_classify(b).0 == "jpeg"@,
        spec_sniff(b) == Some("gz"@) ==> spec_magic(b) == Some("gzip"@) && spec_classify(b).0 == "gzip"@,
{
    reveal_strlit("png");
    reveal_strlit("gif");
    reveal_strlit("zip");
    reveal_strlit("jpg");
    reveal_strlit("gz");
    match spec_sniff(b) {
        Some(k) => {
            assert(b.len() >= 4);
            let name = if k == "jpg"@ { "jpeg"@ } else if k == "gz"@ { "gzip"@ } else { k };
            assert(spec_magic(b) == Some(name));
            lemma_kind_is_magic(b);
            if k == "png"@ || k == "gif"@ || k == "zip"@ {
                assert(k[0] != "jpg"@[0]);
                assert(k.len() != "gz"@.len());
                assert(name == k);
            }
        },
        None => {},
    }
}

} // verus!
