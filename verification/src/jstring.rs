//! Java `String` semantics: the UTF-16 code units of a Latin-1 or UTF-16 payload, the
//! `String.hashCode` contract, and lossy text decoding.
use vstd::prelude::*;
use crate::text::string_from_chars;

verus! {

/// The UTF-16 code units of a String payload: one per byte for Latin-1 (`coder == 0`),
/// one per little-endian byte pair for UTF-16 (a trailing odd byte is ignored).
pub open spec fn code_units(payload: Seq<u8>, coder: u8) -> Seq<u16> {
    if coder == 0 {
        Seq::new(payload.len(), |i: int| payload[i] as u16)
    } else {
        Seq::new(payload.len() / 2, |i: int| (payload[2 * i] + 256 * payload[2 * i + 1]) as u16)
    }
}

/// `String.hashCode`: `s[0]*31^(n-1) + ... + s[n-1]` in 32-bit wrapping arithmetic.
pub open spec fn string_hash(units: Seq<u16>) -> u32
    decreases units.len(),
{
    if units.len() == 0 {
        0
    } else {
        ((31 * string_hash(units.drop_last()) + units.last()) % 0x1_0000_0000) as u32
    }
}

/// Computes Java's String hash of a Latin-1 (`coder == 0`) or UTF-16 payload.
pub fn java_hash(payload: &[u8], coder: u8) -> (h: u32)
    ensures
        h == string_hash(code_units(payload@, coder)),
{
    let ghost units = code_units(payload@, coder);
    let n = payload.len();
    let count = if coder == 0 {
        n
    } else {
        n / 2
    };
    let mut hash: u32 = 0;
    let mut i: usize = 0;
    assert(units.take(0) =~= Seq::<u16>::empty());
    while i < count
        invariant
            n == payload@.len(),
            units == code_units(payload@, coder),
            count == units.len(),
            i <= count,
            hash == string_hash(units.take(i as int)),
        decreases count - i,
    {
        let unit: u32 = if coder == 0 {
            payload[i] as u32
        } else {
            (payload[2 * i] as u32) + 256 * (payload[2 * i + 1] as u32)
        };
        assert(unit == units[i as int]);
        assert(units.take(i + 1).drop_last() =~= units.take(i as int));
        hash = hash.wrapping_mul(31).wrapping_add(unit);
        i = i + 1;
    }
    assert(units.take(count as int) =~= units);
    hash
}

/// A surrogate code unit (U+D800..U+DFFF).
pub open spec fn is_surrogate(u: u16) -> bool {
    0xd800 <= u <= 0xdfff
}

pub open spec fn is_high_surrogate(u: u16) -> bool {
    0xd800 <= u <= 0xdbff
}

pub open spec fn is_low_surrogate(u: u16) -> bool {
    0xdc00 <= u <= 0xdfff
}

/// The scalar value of a surrogate pair.
pub open spec fn pair_scalar(hi: u16, lo: u16) -> u32 {
    (0x10000 + (hi - 0xd800) * 0x400 + (lo - 0xdc00)) as u32
}

/// Lossy UTF-16 decoding: surrogate pairs combine, every unpaired surrogate becomes
/// U+FFFD. The flag tells whether any unpaired surrogate was replaced.
pub open spec fn decode_utf16(units: Seq<u16>) -> (Seq<char>, bool)
    decreases units.len(),
{
    if units.len() == 0 {
        (Seq::empty(), false)
    } else if units.len() >= 2 && is_high_surrogate(units[0]) && is_low_surrogate(units[1]) {
        let rest = decode_utf16(units.skip(2));
        (seq![pair_scalar(units[0], units[1]) as char] + rest.0, rest.1)
    } else if is_surrogate(units[0]) {
        let rest = decode_utf16(units.skip(1));
        (seq!['\u{fffd}'] + rest.0, true)
    } else {
        let rest = decode_utf16(units.skip(1));
        (seq![units[0] as char] + rest.0, rest.1)
    }
}

/// The text of a Java String payload and whether decoding was lossy. Latin-1 maps each
/// byte to the character of the same code point and is never lossy.
pub open spec fn spec_payload_text(payload: Seq<u8>, coder: u8) -> (Seq<char>, bool) {
    if coder == 0 {
        (Seq::new(payload.len(), |i: int| payload[i] as char), false)
    } else {
        decode_utf16(code_units(payload, coder))
    }
}

/// A Unicode scalar value: not a surrogate and at most U+10FFFF.
pub open spec fn is_scalar_value(v: u32) -> bool {
    v <= 0x10ffff && !(0xd800 <= v <= 0xdfff)
}

/// `char::from_u32`: the character with scalar value `v`, or `None` for surrogates and
/// values above U+10FFFF, as the standard library documents.
#[verifier::external_body]
pub(crate) fn char_from_scalar(v: u32) -> (r: Option<char>)
    ensures
        is_scalar_value(v) ==> r == Some(v as char),
        !is_scalar_value(v) ==> r is None,
{
    char::from_u32(v)
}

proof fn lemma_pair_scalar(hi: u16, lo: u16)
    requires
        is_high_surrogate(hi),
        is_low_surrogate(lo),
    ensures
        is_scalar_value(pair_scalar(hi, lo)),
        pair_scalar(hi, lo) >= 0x10000,
{
}

/// The characters of a decoded payload (see [`spec_payload_text`]).
pub fn payload_chars(payload: &[u8], coder: u8) -> (r: (Vec<char>, bool))
    ensures
        r.0@ == spec_payload_text(payload@, coder).0,
        r.1 == spec_payload_text(payload@, coder).1,
{
    let n = payload.len();
    let mut out: Vec<char> = Vec::new();
    if coder == 0 {
        let mut i: usize = 0;
        while i < n
            invariant
                n == payload@.len(),
                i <= n,
                out@ == Seq::new(i as nat, |k: int| payload@[k] as char),
            decreases n - i,
        {
            let c = payload[i] as char;
            out.push(c);
            i = i + 1;
            assert(out@ =~= Seq::new(i as nat, |k: int| payload@[k] as char));
        }
        return (out, false);
    }
    let ghost units = code_units(payload@, coder);
    let count = n / 2;
    let mut lossy = false;
    let mut i: usize = 0;
    assert(units.skip(0) =~= units);
    while i < count
        invariant
            n == payload@.len(),
            coder != 0,
            units == code_units(payload@, coder),
            count == units.len(),
            i <= count,
            decode_utf16(units).0 == out@ + decode_utf16(units.skip(i as int)).0,
            decode_utf16(units).1 == (lossy || decode_utf16(units.skip(i as int)).1),
        decreases count - i,
    {
        let ghost rest = units.skip(i as int);
        let u: u16 = ((payload[2 * i] as u32) + 256 * (payload[2 * i + 1] as u32)) as u16;
        assert(u == rest[0]);
        if 0xd800 <= u && u <= 0xdbff && i + 1 < count {
            let v: u16 = ((payload[2 * i + 2] as u32) + 256 * (payload[2 * i + 3] as u32)) as u16;
            assert(v == rest[1]);
            if 0xdc00 <= v && v <= 0xdfff {
                let scalar: u32 = 0x10000 + ((u - 0xd800) as u32) * 0x400 + ((v - 0xdc00) as u32);
                proof {
                    lemma_pair_scalar(u, v);
                    assert(scalar == pair_scalar(u, v));
                }
                let c = char_from_scalar(scalar);
                out.push(c.unwrap());
                assert(rest.skip(2) =~= units.skip(i + 2));
                i = i + 2;
                continue;
            }
        }
        if 0xd800 <= u && u <= 0xdfff {
            out.push('\u{fffd}');
            lossy = true;
        } else {
            let c = char_from_scalar(u as u32);
            out.push(c.unwrap());
        }
        assert(rest.skip(1) =~= units.skip(i + 1));
        i = i + 1;
    }
    assert(units.skip(count as int) =~= Seq::<u16>::empty());
    (out, lossy)
}

/// The text of a Java String payload as a `String`, and whether decoding was lossy.
pub fn payload_text(payload: &[u8], coder: u8) -> (r: (String, bool))
    ensures
        r.0@ == spec_payload_text(payload@, coder).0,
        r.1 == spec_payload_text(payload@, coder).1,
{
    let (chars, lossy) = payload_chars(payload, coder);
    (string_from_chars(chars.as_slice()), lossy)
}

proof fn lemma_decode_plain(units: Seq<u16>)
    requires
        forall|i: int| 0 <= i < units.len() ==> !is_surrogate(#[trigger] units[i]),
    ensures
        decode_utf16(units) == (Seq::new(units.len(), |i: int| units[i] as char), false),
    decreases units.len(),
{
    if units.len() > 0 {
        let rest = units.skip(1);
        assert forall|i: int| 0 <= i < rest.len() implies !is_surrogate(#[trigger] rest[i]) by {
            assert(rest[i] == units[i + 1]);
        }
        lemma_decode_plain(rest);
        assert(!is_surrogate(units[0]));
        assert(seq![units[0] as char] + Seq::new(rest.len(), |i: int| rest[i] as char)
            =~= Seq::new(units.len(), |i: int| units[i] as char));
    }
}

/// Law: a UTF-16 String payload (any nonzero coder) whose byte pairs hold no surrogate
/// decodes, without loss, to one character per pair: the little-endian value of the pair
/// (low byte first), as the code units that `java_hash` hashes.
pub proof fn law_utf16_text_is_little_endian(payload: Seq<u8>, coder: u8)
    requires
        coder != 0,
        forall|i: int| 0 <= i < payload.len() / 2 ==> !(0xd8 <= #[trigger] payload[2 * i + 1] <= 0xdf),
    ensures
        spec_payload_text(payload, coder)
            == (Seq::new(payload.len() / 2, |i: int| (payload[2 * i] + 256 * payload[2 * i + 1]) as char), false),
        code_units(payload, coder) == Seq::new(payload.len() / 2, |i: int| (payload[2 * i] + 256 * payload[2 * i + 1]) as u16),
{
    let units = code_units(payload, coder);
    assert forall|i: int| 0 <= i < units.len() implies !is_surrogate(#[trigger] units[i]) by {
        let lo = payload[2 * i];
        let hi = payload[2 * i + 1];
        assert(!(0xd8 <= hi <= 0xdf));
        assert(units[i] == lo + 256 * hi);
    }
    lemma_decode_plain(units);
    let expect = Seq::new(payload.len() / 2, |i: int| (payload[2 * i] + 256 * payload[2 * i + 1]) as char);
    assert forall|i: int| 0 <= i < units.len() implies (units[i] as char) == #[trigger] expect[i] by {
        assert(units[i] == payload[2 * i] + 256 * payload[2 * i + 1]);
    }
    assert(Seq::new(units.len(), |i: int| units[i] as char) =~= expect);
}

/// Law: a Latin-1 String payload (coder 0) decodes, never lossily, to one character per
/// byte with that byte's code point, and those bytes are the code units that `java_hash`
/// hashes.
pub proof fn law_latin1_text_is_bytewise(payload: Seq<u8>)
    ensures
        spec_payload_text(payload, 0) == (Seq::new(payload.len(), |i: int| payload[i] as char), false),
        code_units(payload, 0) == Seq::new(payload.len(), |i: int| payload[i] as u16),
{
}

} // verus!
