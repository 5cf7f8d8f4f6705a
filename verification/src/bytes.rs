//! Little-endian words, alignment and mark-word shape.
use vstd::prelude::*;

verus! {

/// Powers of 256.
pub open spec fn pow256(n: nat) -> nat
    decreases n,
{
    if n == 0 {
        1
    } else {
        256 * pow256((n - 1) as nat)
    }
}

/// The unsigned integer that a little-endian byte sequence encodes.
pub open spec fn le_value(b: Seq<u8>) -> nat
    decreases b.len(),
{
    if b.len() == 0 {
        0
    } else {
        b[0] as nat + 256 * le_value(b.drop_first())
    }
}

pub proof fn lemma_le_value_bound(b: Seq<u8>)
    ensures
        le_value(b) < pow256(b.len()),
    decreases b.len(),
{
    if b.len() > 0 {
        lemma_le_value_bound(b.drop_first());
    }
}

pub proof fn lemma_pow256_mono(a: nat, b: nat)
    requires
        a <= b,
    ensures
        pow256(a) <= pow256(b),
    decreases b,
{
    if a < b {
        lemma_pow256_mono(a, (b - 1) as nat);
    }
}

/// Reads `len <= 8` bytes starting at `start` as a little-endian integer.
pub fn word_at(b: &[u8], start: usize, len: usize) -> (r: u64)
    requires
        len <= 8,
        start + len <= b@.len(),
    ensures
        r as nat == le_value(b@.subrange(start as int, start + len)),
{
    let n = b.len();
    let mut v: u64 = 0;
    let mut i: usize = len;
    proof {
        assert(b@.subrange(start + len, start + len as int) =~= Seq::<u8>::empty());
        reveal_with_fuel(pow256, 9);
    }
    while i > 0
        invariant
            i <= len <= 8,
            n == b@.len(),
            start + len <= n,
            v as nat == le_value(b@.subrange(start + i, start + len)),
            pow256(8) == 0x1_0000_0000_0000_0000,
            pow256(7) == 0x1_0000_0000_0000_00,
        decreases i,
    {
        let ghost tail = b@.subrange(start + i, start + len);
        proof {
            lemma_le_value_bound(tail);
            lemma_pow256_mono(tail.len(), 7);
            let s = b@.subrange(start + i - 1, start + len);
            assert(s.drop_first() =~= tail);
        }
        i = i - 1;
        v = (b[start + i] as u64) + 256 * v;
    }
    v
}

/// Reads the whole (at most eight byte) slice as a little-endian integer.
pub fn word(b: &[u8]) -> (r: u64)
    requires
        b@.len() <= 8,
    ensures
        r as nat == le_value(b@),
{
    proof {
        assert(b@.subrange(0, b@.len() as int) =~= b@);
    }
    word_at(b, 0, b.len())
}

/// Rounds up to a multiple of eight; `None` when that overflows.
pub open spec fn spec_aligned(n: u64) -> Option<u64> {
    if n + 7 > u64::MAX {
        None
    } else {
        Some((((n + 7) / 8) * 8) as u64)
    }
}

pub fn aligned(n: u64) -> (r: Option<u64>)
    ensures
        r == spec_aligned(n),
{
    match n.checked_add(7) {
        None => None,
        Some(m) => {
            assert(m & !7u64 == (m / 8) * 8) by (bit_vector);
            Some(m & !7u64)
        },
    }
}

/// An ordinary unlocked or hashed mark word: low two bits `01`, nothing above bit 40.
pub open spec fn mark_shape_ok(mark: nat) -> bool {
    mark % 4 == 1 && mark < 0x100_0000_0000
}

/// Whether the first eight bytes hold a supported mark word.
pub fn mark_ok(b: &[u8]) -> (r: bool)
    requires
        b@.len() >= 8,
    ensures
        r == mark_shape_ok(le_value(b@.subrange(0, 8))),
{
    let mark = word_at(b, 0, 8);
    assert(mark & 3 == mark % 4) by (bit_vector);
    assert((mark >> 40u64 == 0) == (mark < 0x100_0000_0000)) by (bit_vector);
    mark & 3 == 1 && mark >> 40u64 == 0
}

/// Whether `[a, a + an)` and `[b, b + bn)` intersect (on mathematical integers).
pub open spec fn spec_overlaps(a: int, an: int, b: int, bn: int) -> bool {
    a < b + bn && b < a + an
}

pub fn overlaps(a: u64, an: u64, b: u64, bn: u64) -> (r: bool)
    requires
        b + bn <= u64::MAX,
        a + an <= u64::MAX,
    ensures
        r == spec_overlaps(a as int, an as int, b as int, bn as int),
{
    a < b + bn && b < a + an
}

} // verus!
