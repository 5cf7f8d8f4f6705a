//! The `SHA256SUMS` file of a capture bundle: one lower-cased digest per known file.
use vstd::prelude::*;
use crate::classmap::ClassBindings;
use crate::encoding::{spec_lossy, spec_status};
use crate::error::{Error, ErrorView, rview};
use crate::lines::{deep, next_line, spec_lines, spec_words, words};
use crate::text::{string_from_chars, str_eq, chars_eq, chars_of};
use crate::census::decode;

verus! {

/// The files a checksum file may name.
pub open spec fn allowed_name(n: Seq<char>) -> bool {
    n == "heap.raw"@ || n == "layout.json"@ || n == "maps.txt"@ || n == "expected.json"@ || n == "consistency.txt"@
}

/// An ASCII hexadecimal digit.
pub open spec fn is_hex(c: char) -> bool {
    ('0' <= c && c <= '9') || ('a' <= c && c <= 'f') || ('A' <= c && c <= 'F')
}

/// A digest: 64 hexadecimal digits.
pub open spec fn digest_ok(h: Seq<char>) -> bool {
    h.len() == 64 && forall|i: int| 0 <= i < h.len() ==> is_hex(#[trigger] h[i])
}

/// ASCII lower case.
pub open spec fn lower(c: char) -> char {
    if 'A' <= c && c <= 'Z' { ((c as u32) + 32) as char } else { c }
}

pub open spec fn lower_all(h: Seq<char>) -> Seq<char> {
    h.map_values(|c: char| lower(c))
}

/// The entries of the lines, in order, or the first refusal: a line without a digest, one
/// without a file name, or one with more fields, a malformed digest, an unknown file or a
/// repeated file.
pub open spec fn spec_entries(lines: Seq<Seq<char>>, acc: Seq<(Seq<char>, Seq<char>)>) -> Result<Seq<(Seq<char>, Seq<char>)>, ErrorView>
    decreases lines.len(),
{
    if lines.len() == 0 {
        Ok(acc)
    } else {
        let w = spec_words(lines[0]);
        if w.len() == 0 {
            Err(ErrorView::MissingDigest)
        } else if w.len() == 1 {
            Err(ErrorView::MissingChecksumFilename)
        } else if w.len() > 2 || !digest_ok(w[0]) || !allowed_name(w[1])
            || listed(acc, w[1]) {
            Err(ErrorView::InvalidChecksumEntry)
        } else {
            spec_entries(lines.drop_first(), acc.push((w[1], lower_all(w[0]))))
        }
    }
}

/// Some entry names `n`.
pub open spec fn listed(es: Seq<(Seq<char>, Seq<char>)>, n: Seq<char>) -> bool {
    exists|i: int| 0 <= i < es.len() && #[trigger] es[i].0 == n
}

/// The first required file without a checksum.
pub open spec fn first_missing(es: Seq<(Seq<char>, Seq<char>)>) -> Option<Seq<char>> {
    if !listed(es, "heap.raw"@) {
        Some("heap.raw"@)
    } else if !listed(es, "layout.json"@) {
        Some("layout.json"@)
    } else if !listed(es, "maps.txt"@) {
        Some("maps.txt"@)
    } else if !listed(es, "consistency.txt"@) {
        Some("consistency.txt"@)
    } else {
        None
    }
}

/// Parses a checksum file: UTF-8 text, then its entries, then the required files.
pub open spec fn spec_checksums(bytes: Seq<u8>) -> Result<Seq<(Seq<char>, Seq<char>)>, ErrorView> {
    if spec_status(bytes) != 0 {
        Err(ErrorView::BadChecksumFile)
    } else {
        match spec_entries(spec_lines(spec_lossy(bytes)), seq![]) {
            Err(e) => Err(e),
            Ok(es) => match first_missing(es) {
                Some(n) => Err(ErrorView::MissingChecksum(n)),
                None => Ok(es),
            },
        }
    }
}


fn is_allowed(w: &Vec<char>) -> (r: bool)
    ensures
        r == allowed_name(w@),
{
    let s = w.as_slice();
    chars_eq(s, chars_of("heap.raw").as_slice()) || chars_eq(s, chars_of("layout.json").as_slice())
        || chars_eq(s, chars_of("maps.txt").as_slice()) || chars_eq(s, chars_of("expected.json").as_slice())
        || chars_eq(s, chars_of("consistency.txt").as_slice())
}

fn digest_lower(h: &Vec<char>) -> (r: Option<Vec<char>>)
    ensures
        match r {
            Some(v) => digest_ok(h@) && v@ == lower_all(h@),
            None => !digest_ok(h@),
        },
{
    if h.len() != 64 {
        return None;
    }
    let mut out: Vec<char> = Vec::new();
    let mut i: usize = 0;
    while i < 64
        invariant
            h@.len() == 64,
            i <= 64,
            out@ == lower_all(h@.take(i as int)),
            forall|k: int| 0 <= k < i ==> is_hex(#[trigger] h@[k]),
        decreases 64 - i,
    {
        let c = h[i];
        if !(('0' <= c && c <= '9') || ('a' <= c && c <= 'f') || ('A' <= c && c <= 'F')) {
            return None;
        }
        let l = if 'A' <= c && c <= 'Z' {
            ((c as u8) + 32) as char
        } else {
            c
        };
        assert(l == lower(c));
        out.push(l);
        assert(out@ =~= lower_all(h@.take(i + 1)));
        i = i + 1;
    }
    assert(h@.take(64) =~= h@);
    Some(out)
}

fn find_name(es: &Vec<(String, String)>, name: &[char]) -> (r: bool)
    ensures
        r == listed(es@.map_values(|e: (String, String)| (e.0@, e.1@)), name@),
{
    let ghost v = es@.map_values(|e: (String, String)| (e.0@, e.1@));
    let mut i: usize = 0;
    while i < es.len()
        invariant
            i <= es@.len(),
            v == es@.map_values(|e: (String, String)| (e.0@, e.1@)),
            forall|k: int| 0 <= k < i ==> v[k].0 != name@,
        decreases es@.len() - i,
    {
        let c = chars_of(es[i].0.as_str());
        if chars_eq(c.as_slice(), name) {
            assert(v[i as int].0 == name@);
            return true;
        }
        i = i + 1;
    }
    false
}

/// Parses a checksum file (see [`spec_checksums`]) into (file, lower-case digest) entries.
pub fn checksums(bytes: &[u8]) -> (r: Result<Vec<(String, String)>, Error>)
    ensures
        match spec_checksums(bytes@) {
            Ok(es) => r matches Ok(v) && v@.map_values(|e: (String, String)| (e.0@, e.1@)) == es,
            Err(e) => rview(r) == Err::<Vec<(String, String)>, ErrorView>(e),
        },
{
    let (cs, status, _) = decode(bytes);
    if status != 0 {
        return Err(Error::BadChecksumFile);
    }
    let n = cs.len();
    let mut es: Vec<(String, String)> = Vec::new();
    let mut pos: usize = 0;
    assert(cs@.skip(0) =~= cs@);
    assert(es@.map_values(|e: (String, String)| (e.0@, e.1@)) =~= Seq::<(Seq<char>, Seq<char>)>::empty());
    while pos < n
        invariant
            n == cs@.len(),
            pos <= n,
            cs@ == spec_lossy(bytes@),
            spec_status(bytes@) == 0,
            spec_entries(spec_lines(cs@), seq![]) == spec_entries(spec_lines(cs@.skip(pos as int)), es@.map_values(|e: (String, String)| (e.0@, e.1@))),
        decreases n - pos,
    {
        let (line, next) = next_line(cs.as_slice(), pos);
        let ghost ls = spec_lines(cs@.skip(pos as int));
        let ghost acc = es@.map_values(|e: (String, String)| (e.0@, e.1@));
        assert(ls[0] == line@);
        assert(ls.drop_first() =~= spec_lines(cs@.skip(next as int)));
        let w = words(line.as_slice());
        assert(deep(w@) == spec_words(line@));
        assert(deep(w@).len() == w@.len());
        if w.len() == 0 {
            return Err(Error::MissingDigest);
        }
        if w.len() == 1 {
            return Err(Error::MissingChecksumFilename);
        }
        assert(deep(w@)[0] == w@[0]@);
        assert(deep(w@)[1] == w@[1]@);
        if w.len() > 2 {
            return Err(Error::InvalidChecksumEntry);
        }
        let lowered = match digest_lower(&w[0]) {
            None => {
                return Err(Error::InvalidChecksumEntry);
            },
            Some(l) => l,
        };
        if !is_allowed(&w[1]) || find_name(&es, w[1].as_slice()) {
            return Err(Error::InvalidChecksumEntry);
        }
        let ghost before = es@;
        es.push((string_from_chars(w[1].as_slice()), string_from_chars(lowered.as_slice())));
        assert(es@.map_values(|e: (String, String)| (e.0@, e.1@)) =~= acc.push((w@[1]@, lower_all(w@[0]@))));
        pos = next;
    }
    assert(cs@.skip(n as int) =~= Seq::<char>::empty());
    assert(spec_lines(cs@.skip(n as int)) =~= Seq::<Seq<char>>::empty());
    if !find_name(&es, chars_of("heap.raw").as_slice()) {
        return Err(Error::MissingChecksum("heap.raw".to_owned()));
    }
    if !find_name(&es, chars_of("layout.json").as_slice()) {
        return Err(Error::MissingChecksum("layout.json".to_owned()));
    }
    if !find_name(&es, chars_of("maps.txt").as_slice()) {
        return Err(Error::MissingChecksum("maps.txt".to_owned()));
    }
    if !find_name(&es, chars_of("consistency.txt").as_slice()) {
        return Err(Error::MissingChecksum("consistency.txt".to_owned()));
    }
    Ok(es)
}

/// The digest listed for a file.
pub fn sum_for<'a>(sums: &'a Vec<(String, String)>, name: &str) -> (r: Option<&'a String>)
    ensures
        match r {
            Some(h) => exists|i: int| 0 <= i < sums@.len() && sums@[i].0@ == name@ && sums@[i].1 == *h,
            None => forall|i: int| 0 <= i < sums@.len() ==> sums@[i].0@ != name@,
        },
{
    let mut i: usize = 0;
    while i < sums.len()
        invariant
            i <= sums@.len(),
            forall|k: int| 0 <= k < i ==> sums@[k].0@ != name@,
        decreases sums@.len() - i,
    {
        if str_eq(sums[i].0.as_str(), name) {
            return Some(&sums[i].1);
        }
        i = i + 1;
    }
    None
}

} // verus!
