//! UTF-8 decoding by the well-formed byte sequences of the Unicode standard (Table 3-7):
//! strict validity, the first error's kind, and lossy decoding that replaces each maximal
//! ill-formed subpart with U+FFFD.
use vstd::prelude::*;

verus! {

/// The number of bytes a sequence with this lead byte has; zero for bytes that never lead.
pub open spec fn seq_need(b0: u8) -> int {
    if b0 < 0x80 {
        1
    } else if 0xc2 <= b0 <= 0xdf {
        2
    } else if 0xe0 <= b0 <= 0xef {
        3
    } else if 0xf0 <= b0 <= 0xf4 {
        4
    } else {
        0
    }
}

/// The allowed second bytes after a lead byte.
pub open spec fn second_ok(b0: u8, b1: u8) -> bool {
    if b0 == 0xe0 {
        0xa0 <= b1 <= 0xbf
    } else if b0 == 0xed {
        0x80 <= b1 <= 0x9f
    } else if b0 == 0xf0 {
        0x90 <= b1 <= 0xbf
    } else if b0 == 0xf4 {
        0x80 <= b1 <= 0x8f
    } else {
        0x80 <= b1 <= 0xbf
    }
}

pub open spec fn cont(b: u8) -> bool {
    0x80 <= b <= 0xbf
}

/// What starts at position `i`.
#[derive(Debug, Clone, Copy, PartialEq, Eq)]
pub enum Unit {
    /// A well-formed sequence of this many bytes encoding this scalar value.
    Scalar(u32, usize),
    /// An ill-formed maximal subpart of this many bytes.
    Invalid(usize),
    /// A well-formed prefix cut short by the end of the input.
    Truncated,
}

/// The unit at position `i < b.len()`.
pub open spec fn spec_unit(b: Seq<u8>, i: int) -> Unit {
    let n = b.len();
    let b0 = b[i];
    let need = seq_need(b0);
    if need == 0 {
        Unit::Invalid(1)
    } else if need == 1 {
        Unit::Scalar(b0 as u32, 1)
    } else if i + 1 >= n {
        Unit::Truncated
    } else if !second_ok(b0, b[i + 1]) {
        Unit::Invalid(1)
    } else if need == 2 {
        Unit::Scalar(((b0 as u32 & 0x1f) * 64 + (b[i + 1] as u32 & 0x3f)) as u32, 2)
    } else if i + 2 >= n {
        Unit::Truncated
    } else if !cont(b[i + 2]) {
        Unit::Invalid(2)
    } else if need == 3 {
        Unit::Scalar(((b0 as u32 & 0x0f) * 4096 + (b[i + 1] as u32 & 0x3f) * 64 + (b[i + 2] as u32 & 0x3f)) as u32, 3)
    } else if i + 3 >= n {
        Unit::Truncated
    } else if !cont(b[i + 3]) {
        Unit::Invalid(3)
    } else {
        Unit::Scalar(((b0 as u32 & 0x07) * 262144 + (b[i + 1] as u32 & 0x3f) * 4096 + (b[i + 2] as u32 & 0x3f) * 64
            + (b[i + 3] as u32 & 0x3f)) as u32, 4)
    }
}

/// The strict-decoding status of the input from position `i`: 0 valid, 1 ends in a
/// truncated sequence, 2 holds an ill-formed sequence first.
pub open spec fn spec_status_from(b: Seq<u8>, i: int) -> u8
    decreases b.len() - i,
{
    if i >= b.len() || i < 0 {
        0
    } else {
        match spec_unit(b, i) {
            Unit::Scalar(_, l) => spec_status_from(b, i + l),
            Unit::Invalid(_) => 2,
            Unit::Truncated => 1,
        }
    }
}

/// The characters of lossy decoding from position `i`: each scalar, and U+FFFD for each
/// ill-formed subpart and for a truncated end.
pub open spec fn spec_lossy_from(b: Seq<u8>, i: int) -> Seq<char>
    decreases b.len() - i,
{
    if i >= b.len() || i < 0 {
        Seq::empty()
    } else {
        match spec_unit(b, i) {
            Unit::Scalar(v, l) => seq![v as char] + spec_lossy_from(b, i + l),
            Unit::Invalid(l) => seq!['\u{fffd}'] + spec_lossy_from(b, i + l),
            Unit::Truncated => seq!['\u{fffd}'],
        }
    }
}

/// The characters of lossy decoding.
pub open spec fn spec_lossy(b: Seq<u8>) -> Seq<char> {
    spec_lossy_from(b, 0)
}

/// 0 valid UTF-8, 1 incomplete tail, 2 invalid sequence.
pub open spec fn spec_status(b: Seq<u8>) -> u8 {
    spec_status_from(b, 0)
}

/// The unit at position `i`.
pub fn unit_at(b: &[u8], i: usize) -> (u: Unit)
    requires
        i < b@.len(),
    ensures
        u == spec_unit(b@, i as int),
        u matches Unit::Scalar(v, l) ==> 1 <= l <= 4 && i + l <= b@.len() && ((0 <= v < 0xd800) || (0xe000 <= v <= 0x10ffff)),
        u matches Unit::Invalid(l) ==> 1 <= l <= 3 && i + l <= b@.len(),
{
    let n = b.len();
    let b0 = b[i];
    let need: usize = if b0 < 0x80 {
        1
    } else if 0xc2 <= b0 && b0 <= 0xdf {
        2
    } else if 0xe0 <= b0 && b0 <= 0xef {
        3
    } else if 0xf0 <= b0 && b0 <= 0xf4 {
        4
    } else {
        0
    };
    if need == 0 {
        return Unit::Invalid(1);
    }
    if need == 1 {
        return Unit::Scalar(b0 as u32, 1);
    }
    if i + 1 >= n {
        return Unit::Truncated;
    }
    let b1 = b[i + 1];
    let ok1 = if b0 == 0xe0 {
        0xa0 <= b1 && b1 <= 0xbf
    } else if b0 == 0xed {
        0x80 <= b1 && b1 <= 0x9f
    } else if b0 == 0xf0 {
        0x90 <= b1 && b1 <= 0xbf
    } else if b0 == 0xf4 {
        0x80 <= b1 && b1 <= 0x8f
    } else {
        0x80 <= b1 && b1 <= 0xbf
    };
    if !ok1 {
        return Unit::Invalid(1);
    }
    if need == 2 {
        assert((b0 as u32 & 0x1f) <= 0x1f && (b1 as u32 & 0x3f) <= 0x3f) by (bit_vector);
        assert((b0 as u32 & 0x1f) >= 2) by (bit_vector)
            requires
                0xc2 <= b0 <= 0xdf,
        ;
        let v = (b0 as u32 & 0x1f) * 64 + (b1 as u32 & 0x3f);
        return Unit::Scalar(v, 2);
    }
    if i + 2 >= n {
        return Unit::Truncated;
    }
    let b2 = b[i + 2];
    if !(0x80 <= b2 && b2 <= 0xbf) {
        return Unit::Invalid(2);
    }
    if need == 3 {
        assert((b0 as u32 & 0x0f) <= 0x0f && (b1 as u32 & 0x3f) <= 0x3f && (b2 as u32 & 0x3f) <= 0x3f) by (bit_vector);
        assert((b0 == 0xe0 ==> (b0 as u32 & 0x0f) == 0 && (b1 as u32 & 0x3f) >= 0x20)
            && (b0 == 0xed ==> (b0 as u32 & 0x0f) == 0xd && (b1 as u32 & 0x3f) < 0x20)
            && (b0 != 0xe0 && b0 != 0xed ==> (b0 as u32 & 0x0f) >= 1 && (b0 as u32 & 0x0f) != 0xd)) by (bit_vector)
            requires
                0xe0 <= b0 <= 0xef,
                b0 == 0xe0 ==> 0xa0 <= b1 <= 0xbf,
                b0 == 0xed ==> 0x80 <= b1 <= 0x9f,
        ;
        let v = (b0 as u32 & 0x0f) * 4096 + (b1 as u32 & 0x3f) * 64 + (b2 as u32 & 0x3f);
        return Unit::Scalar(v, 3);
    }
    if i + 3 >= n {
        return Unit::Truncated;
    }
    let b3 = b[i + 3];
    if !(0x80 <= b3 && b3 <= 0xbf) {
        return Unit::Invalid(3);
    }
    assert((b0 as u32 & 0x07) <= 4 && (b1 as u32 & 0x3f) <= 0x3f && (b2 as u32 & 0x3f) <= 0x3f && (b3 as u32 & 0x3f) <= 0x3f
        && (b0 == 0xf0 ==> (b0 as u32 & 0x07) == 0 && (b1 as u32 & 0x3f) >= 0x10)
        && (b0 == 0xf4 ==> (b0 as u32 & 0x07) == 4 && (b1 as u32 & 0x3f) < 0x10)
        && (b0 != 0xf0 ==> (b0 as u32 & 0x07) >= 1)
        && (b0 != 0xf4 ==> (b0 as u32 & 0x07) <= 3)) by (bit_vector)
        requires
            0xf0 <= b0 <= 0xf4,
            b0 == 0xf0 ==> 0x90 <= b1 <= 0xbf,
            b0 == 0xf4 ==> 0x80 <= b1 <= 0x8f,
    ;
    let v = (b0 as u32 & 0x07) * 262144 + (b1 as u32 & 0x3f) * 4096 + (b2 as u32 & 0x3f) * 64 + (b3 as u32 & 0x3f);
    Unit::Scalar(v, 4)
}

} // verus!
