//! ZGC object-reference encodings and the explicit reference-to-file-offset hypotheses.
use vstd::prelude::*;
use crate::error::Error;
use crate::text::str_eq;

verus! {

/// `x` has exactly one bit set among its low four bits.
pub open spec fn one_hot4(x: u64) -> bool {
    x == 1 || x == 2 || x == 4 || x == 8
}

/// Index of the set bit of a one-hot nibble.
pub open spec fn one_hot_index(x: u64) -> u64 {
    if x == 1 {
        0
    } else if x == 2 {
        1
    } else if x == 4 {
        2
    } else {
        3
    }
}

/// The remap nibble of a generational colored pointer (bits 12..15).
pub open spec fn remap_nibble(raw: u64) -> u64 {
    (raw >> 12u64) & 0xfu64
}

/// The uncolored address of a JDK 21 generational ZGC reference, for the given CPU.
///
/// A reference with nothing above its low 16 color bits is null (address 0). Otherwise
/// the low four bits must be clear; on amd64 the one-hot remap nibble selects a shift of
/// 13 + its bit index, on aarch64 the complemented nibble must be one-hot and the shift
/// is 16. The address must be 8-byte aligned.
pub open spec fn spec_gen_address(raw: u64, architecture: Seq<char>) -> Option<u64> {
    if raw >> 16u64 == 0 {
        Some(0)
    } else if raw & 0xfu64 != 0 {
        None
    } else {
        let remap = remap_nibble(raw);
        let shift: Option<u64> = if architecture == "aarch64"@ && one_hot4(remap ^ 0xfu64) {
            Some(16)
        } else if architecture == "amd64"@ && one_hot4(remap) {
            Some((13 + one_hot_index(remap)) as u64)
        } else {
            None
        };
        match shift {
            None => None,
            Some(s) => {
                let address = raw >> s;
                if address % 8 == 0 {
                    Some(address)
                } else {
                    None
                }
            },
        }
    }
}

/// Decodes a generational colored pointer (see [`spec_gen_address`]).
pub fn gen_address(raw: u64, architecture: &str) -> (r: Option<u64>)
    ensures
        r == spec_gen_address(raw, architecture@),
{
    if raw >> 16u64 == 0 {
        return Some(0);
    }
    if raw & 0xfu64 != 0 {
        return None;
    }
    let remap = (raw >> 12u64) & 0xfu64;
    let flipped = remap ^ 0xfu64;
    let shift: u64 = if str_eq(architecture, "aarch64") && (flipped == 1 || flipped == 2
        || flipped == 4 || flipped == 8) {
        16
    } else if str_eq(architecture, "amd64") && (remap == 1 || remap == 2 || remap == 4 || remap
        == 8) {
        if remap == 1 {
            13
        } else if remap == 2 {
            14
        } else if remap == 4 {
            15
        } else {
            16
        }
    } else {
        return None;
    };
    let address = raw >> shift;
    if address % 8 == 0 {
        Some(address)
    } else {
        None
    }
}

/// Largest power of two not above `a` (zero for zero).
pub open spec fn top_bit(a: nat) -> nat
    decreases a,
{
    if a <= 1 {
        a
    } else {
        2 * top_bit(a / 2)
    }
}

pub proof fn lemma_top_bit_bounds(a: nat)
    requires
        a >= 1,
    ensures
        top_bit(a) <= a < 2 * top_bit(a),
        top_bit(a) >= 1,
    decreases a,
{
    if a > 1 {
        lemma_top_bit_bounds(a / 2);
    }
}

pub open spec fn is_pow2(p: nat) -> bool
    decreases p,
{
    if p == 1 {
        true
    } else if p == 0 || p % 2 == 1 {
        false
    } else {
        is_pow2(p / 2)
    }
}

pub proof fn lemma_top_bit_unique(a: nat, p: nat)
    requires
        is_pow2(p),
        p <= a < 2 * p,
    ensures
        top_bit(a) == p,
    decreases a,
{
    if p > 1 {
        lemma_top_bit_unique(a / 2, p / 2);
    }
}

/// Computes `top_bit(a)` for a nonzero address.
fn highest_bit(a: u64) -> (t: u64)
    requires
        a >= 1,
    ensures
        t as nat == top_bit(a as nat),
{
    let mut t: u64 = 1;
    while t <= a / 2
        invariant
            is_pow2(t as nat),
            1 <= t <= a,
        decreases a - t,
    {
        proof {
            assert(is_pow2((2 * t) as nat)) by {
                assert((2 * t) as nat / 2 == t as nat);
            }
        }
        t = t * 2;
    }
    proof {
        lemma_top_bit_unique(a as nat, t as nat);
    }
    t
}

/// A named hypothesis that relates an uncolored reference to a capture file offset.
#[derive(Debug, Clone, Copy, PartialEq, Eq)]
pub enum ReferenceModel {
    /// Non-generational: the low 42 bits are the file offset.
    NonGenLow42,
    /// Generational aarch64: the heap-relative address is the file offset.
    GenArmLowAddress,
    /// Generational amd64: the heap-relative address is the file offset.
    GenX86LowAddress,
}

impl ReferenceModel {
    /// The hypothesis name used on the command line and in reports.
    pub open spec fn spec_name(self) -> Seq<char> {
        match self {
            ReferenceModel::NonGenLow42 => "nongen-low42-equals-file-offset"@,
            ReferenceModel::GenArmLowAddress => "gen-aarch64-heap-relative-equals-file-offset"@,
            ReferenceModel::GenX86LowAddress => "gen-amd64-heap-relative-equals-file-offset"@,
        }
    }

    pub fn name(self) -> (r: &'static str)
        ensures
            r@ == self.spec_name(),
    {
        match self {
            ReferenceModel::NonGenLow42 => "nongen-low42-equals-file-offset",
            ReferenceModel::GenArmLowAddress => "gen-aarch64-heap-relative-equals-file-offset",
            ReferenceModel::GenX86LowAddress => "gen-amd64-heap-relative-equals-file-offset",
        }
    }

    /// The model whose name is `name`, if any.
    pub open spec fn spec_parse(name: Seq<char>) -> Option<ReferenceModel> {
        if name == ReferenceModel::NonGenLow42.spec_name() {
            Some(ReferenceModel::NonGenLow42)
        } else if name == ReferenceModel::GenArmLowAddress.spec_name() {
            Some(ReferenceModel::GenArmLowAddress)
        } else if name == ReferenceModel::GenX86LowAddress.spec_name() {
            Some(ReferenceModel::GenX86LowAddress)
        } else {
            None
        }
    }

    pub fn parse(name: &str) -> (r: Result<ReferenceModel, Error>)
        ensures
            match ReferenceModel::spec_parse(name@) {
                Some(m) => r == Ok::<ReferenceModel, Error>(m),
                None => r == Err::<ReferenceModel, Error>(Error::UnknownReferenceHypothesis),
            },
    {
        if str_eq(name, ReferenceModel::NonGenLow42.name()) {
            Ok(ReferenceModel::NonGenLow42)
        } else if str_eq(name, ReferenceModel::GenArmLowAddress.name()) {
            Ok(ReferenceModel::GenArmLowAddress)
        } else if str_eq(name, ReferenceModel::GenX86LowAddress.name()) {
            Ok(ReferenceModel::GenX86LowAddress)
        } else {
            Err(Error::UnknownReferenceHypothesis)
        }
    }

    /// The boot profile that matches this hypothesis and header width.
    pub open spec fn spec_profile(self, narrow: bool) -> Seq<char> {
        match (self, narrow) {
            (ReferenceModel::NonGenLow42, false) => "hotspot21-zgc-nongen-uncompressed-le64"@,
            (ReferenceModel::NonGenLow42, true) => "hotspot21-zgc-nongen-compressedklass-le64"@,
            (_, false) => "hotspot21-zgc-gen-uncompressed-le64"@,
            (_, true) => "hotspot21-zgc-gen-compressedklass-le64"@,
        }
    }

    pub fn profile(self, narrow: bool) -> (r: &'static str)
        ensures
            r@ == self.spec_profile(narrow),
    {
        match (self, narrow) {
            (ReferenceModel::NonGenLow42, false) => "hotspot21-zgc-nongen-uncompressed-le64",
            (ReferenceModel::NonGenLow42, true) => "hotspot21-zgc-nongen-compressedklass-le64",
            (_, false) => "hotspot21-zgc-gen-uncompressed-le64",
            (_, true) => "hotspot21-zgc-gen-compressedklass-le64",
        }
    }

    /// Whether the model is one of the generational ones.
    pub open spec fn is_generational(self) -> bool {
        !(self is NonGenLow42)
    }

    /// The file offset that a raw reference denotes under this hypothesis.
    ///
    /// Non-generational: nothing above bit 45, exactly one of the color bits 42..44 set,
    /// and the offset is the low 42 bits. Generational: the uncolored, nonzero address with
    /// its highest set bit (the heap base) removed.
    pub open spec fn spec_target(self, raw: u64) -> Option<u64> {
        match self {
            ReferenceModel::NonGenLow42 => {
                let color = (raw >> 42u64) & 7u64;
                if raw >> 46u64 != 0 || !(color == 1 || color == 2 || color == 4) {
                    None
                } else {
                    Some(raw & 0x3ff_ffff_ffffu64)
                }
            },
            _ => {
                let arch = if self is GenArmLowAddress {
                    "aarch64"@
                } else {
                    "amd64"@
                };
                match spec_gen_address(raw, arch) {
                    None => None,
                    Some(a) => if a == 0 {
                        None
                    } else {
                        Some((a - top_bit(a as nat)) as u64)
                    },
                }
            },
        }
    }

    pub fn target(self, raw: u64) -> (r: Option<u64>)
        ensures
            r == self.spec_target(raw),
    {
        match self {
            ReferenceModel::NonGenLow42 => {
                let color = (raw >> 42u64) & 7u64;
                if raw >> 46u64 != 0 || !(color == 1 || color == 2 || color == 4) {
                    None
                } else {
                    Some(raw & 0x3ff_ffff_ffffu64)
                }
            },
            _ => {
                let arch = if matches!(self, ReferenceModel::GenArmLowAddress) {
                    "aarch64"
                } else {
                    "amd64"
                };
                match gen_address(raw, arch) {
                    None => None,
                    Some(a) => {
                        if a == 0 {
                            None
                        } else {
                            let t = highest_bit(a);
                            proof {
                                lemma_top_bit_bounds(a as nat);
                            }
                            Some(a - t)
                        }
                    },
                }
            },
        }
    }

    /// Whether a raw reference is null under this hypothesis.
    pub open spec fn spec_is_null(self, raw: u64) -> bool {
        match self {
            ReferenceModel::NonGenLow42 => raw == 0,
            _ => raw >> 16u64 == 0,
        }
    }

    pub fn is_null(self, raw: u64) -> (r: bool)
        ensures
            r == self.spec_is_null(raw),
    {
        match self {
            ReferenceModel::NonGenLow42 => raw == 0,
            _ => raw >> 16u64 == 0,
        }
    }
}

/// Law: a 42-bit file offset colored with exactly one of the three non-generational color
/// bits decodes back to that offset, and every offset the hypothesis yields came from such a
/// reference.
pub proof fn law_nongen_color_roundtrip(offset: u64, color: u64, raw: u64)
    requires
        offset < 0x400_0000_0000,
        color == 1 || color == 2 || color == 4,
    ensures
        ReferenceModel::NonGenLow42.spec_target((color << 42u64) | offset) == Some(offset),
        ReferenceModel::NonGenLow42.spec_target(raw) matches Some(t) ==> {
            &&& t < 0x400_0000_0000
            &&& raw == (((raw >> 42u64) << 42u64) | t)
            &&& raw < 0x4000_0000_0000
        },
{
    let r = (color << 42u64) | offset;
    assert(r >> 46u64 == 0 && (r >> 42u64) & 7u64 == color && r & 0x3ff_ffff_ffffu64 == offset)
        by (bit_vector)
        requires
            offset < 0x400_0000_0000,
            color == 1 || color == 2 || color == 4,
            r == (color << 42u64) | offset,
    ;
    assert(raw >> 46u64 == 0 ==> (raw & 0x3ff_ffff_ffffu64) < 0x400_0000_0000 && raw < 0x4000_0000_0000
        && raw == (((raw >> 42u64) << 42u64) | (raw & 0x3ff_ffff_ffffu64))) by (bit_vector);
}

/// Law: on amd64, for every remap color `1 << k` and any middle color bits, a colored
/// pointer to an aligned nonzero address decodes to that address.
pub proof fn law_amd64_color_roundtrip(address: u64, k: u64, middle: u64)
    requires
        address % 8 == 0,
        address >= 8,
        k < 4,
        address < (1u64 << (51 - k)),
        middle < 256,
    ensures
        spec_gen_address(
            (address << (13 + k)) | (1u64 << (12 + k)) | (middle << 4u64),
            "amd64"@,
        ) == Some(address),
{
    reveal_strlit("amd64");
    reveal_strlit("aarch64");
    assert("amd64"@ != "aarch64"@) by {
        assert("amd64"@.len() != "aarch64"@.len());
    }
    let raw = (address << (13 + k)) | (1u64 << (12 + k)) | (middle << 4u64);
    if k == 0 {
        assert(raw >> 16u64 != 0 && raw & 0xfu64 == 0 && (raw >> 12u64) & 0xfu64 == 1 && raw
            >> 13u64 == address) by (bit_vector)
            requires
                address % 8 == 0,
                address >= 8,
                address < (1u64 << 51u64),
                middle < 256,
                raw == (address << 13u64) | (1u64 << 12u64) | (middle << 4u64),
        ;
    } else if k == 1 {
        assert(raw >> 16u64 != 0 && raw & 0xfu64 == 0 && (raw >> 12u64) & 0xfu64 == 2 && raw
            >> 14u64 == address) by (bit_vector)
            requires
                address % 8 == 0,
                address >= 8,
                address < (1u64 << 50u64),
                middle < 256,
                raw == (address << 14u64) | (1u64 << 13u64) | (middle << 4u64),
        ;
    } else if k == 2 {
        assert(raw >> 16u64 != 0 && raw & 0xfu64 == 0 && (raw >> 12u64) & 0xfu64 == 4 && raw
            >> 15u64 == address) by (bit_vector)
            requires
                address % 8 == 0,
                address >= 8,
                address < (1u64 << 49u64),
                middle < 256,
                raw == (address << 15u64) | (1u64 << 14u64) | (middle << 4u64),
        ;
    } else {
        assert(raw >> 16u64 != 0 && raw & 0xfu64 == 0 && (raw >> 12u64) & 0xfu64 == 8 && raw
            >> 16u64 == address) by (bit_vector)
            requires
                address % 8 == 0,
                address >= 8,
                address < (1u64 << 48u64),
                middle < 256,
                raw == (address << 16u64) | (1u64 << 15u64) | (middle << 4u64),
        ;
    }
}

/// Law: on aarch64, for every complemented remap color and any middle color bits, a colored
/// pointer to an aligned nonzero address decodes to that address.
pub proof fn law_aarch64_color_roundtrip(address: u64, k: u64, middle: u64)
    requires
        address % 8 == 0,
        address >= 8,
        k < 4,
        address < (1u64 << 48u64),
        middle < 256,
    ensures
        spec_gen_address(
            (address << 16u64) | ((0xfu64 ^ (1u64 << k)) << 12u64) | (middle << 4u64),
            "aarch64"@,
        ) == Some(address),
{
    reveal_strlit("aarch64");
    let raw = (address << 16u64) | ((0xfu64 ^ (1u64 << k)) << 12u64) | (middle << 4u64);
    assert(raw >> 16u64 != 0 && raw & 0xfu64 == 0 && raw >> 16u64 == address && (((raw >> 12u64)
        & 0xfu64) ^ 0xfu64) == (1u64 << k)) by (bit_vector)
        requires
            address % 8 == 0,
            address >= 8,
            address < (1u64 << 48u64),
            k < 4,
            middle < 256,
            raw == (address << 16u64) | ((0xfu64 ^ (1u64 << k)) << 12u64) | (middle << 4u64),
    ;
    assert(one_hot4(1u64 << k)) by (bit_vector)
        requires
            k < 4,
    ;
}

/// Law: a generational reference whose bits above the 16 color bits are all zero is null,
/// decodes to address zero, and yields no file offset.
pub proof fn law_gen_colored_null(raw: u64)
    requires
        raw >> 16u64 == 0,
    ensures
        ReferenceModel::GenArmLowAddress.spec_is_null(raw),
        ReferenceModel::GenX86LowAddress.spec_is_null(raw),
        spec_gen_address(raw, "amd64"@) == Some(0u64),
        spec_gen_address(raw, "aarch64"@) == Some(0u64),
        ReferenceModel::GenArmLowAddress.spec_target(raw) is None,
        ReferenceModel::GenX86LowAddress.spec_target(raw) is None,
{
}

/// Law: a heap-relative generational target is the uncolored address with its highest set
/// bit removed, so it is always below that bit.
pub proof fn law_gen_target_below_base(model: ReferenceModel, raw: u64)
    requires
        model.is_generational(),
    ensures
        model.spec_target(raw) matches Some(t) ==> {
            let a = spec_gen_address(raw, if model is GenArmLowAddress { "aarch64"@ } else { "amd64"@ })->0;
            &&& a >= 1
            &&& t + top_bit(a as nat) == a
            &&& t < top_bit(a as nat)
        },
{
    let arch = if model is GenArmLowAddress { "aarch64"@ } else { "amd64"@ };
    if let Some(a) = spec_gen_address(raw, arch) {
        if a != 0 {
            lemma_top_bit_bounds(a as nat);
        }
    }
}

} // verus!
