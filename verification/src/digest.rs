//! SHA-256 through the `sha2` crate, and lower-case hexadecimal digests.
use vstd::prelude::*;
use sha2::Digest;
use crate::text::{hex_digit, string_from_chars, str_eq};
use crate::error::Error;

verus! {

/// An incremental SHA-256 state of `sha2`, held privately (Verus cannot declare the
/// generic core type behind the `Sha256` alias).
#[verifier::external_body]
pub struct Hasher {
    state: sha2::Sha256,
}

/// The SHA-256 digest of a byte sequence.
pub uninterp spec fn sha256(data: Seq<u8>) -> Seq<u8>;

/// The bytes absorbed so far by an incremental SHA-256 state.
pub uninterp spec fn absorbed(h: Hasher) -> Seq<u8>;

/// `Sha256::new` (the `Digest` trait of `sha2`): a state that has absorbed nothing.
#[verifier::external_body]
pub(crate) fn sha256_new() -> (h: Hasher)
    ensures
        absorbed(h) == Seq::<u8>::empty(),
{
    Hasher { state: sha2::Sha256::new() }
}

/// `Digest::update`: the state absorbs `data` after what it held.
#[verifier::external_body]
pub(crate) fn sha256_update(h: &mut Hasher, data: &[u8])
    ensures
        absorbed(*final(h)) == absorbed(*old(h)) + data@,
{
    h.state.update(data)
}

/// `Digest::finalize`: the 32-byte digest of everything absorbed.
#[verifier::external_body]
pub(crate) fn sha256_finish(h: Hasher) -> (d: Vec<u8>)
    ensures
        d@ == sha256(absorbed(h)),
        d@.len() == 32,
{
    h.state.finalize().to_vec()
}

/// `Sha256::digest` of a whole byte slice.
#[verifier::external_body]
pub(crate) fn sha256_digest(data: &[u8]) -> (d: Vec<u8>)
    ensures
        d@ == sha256(data@),
        d@.len() == 32,
{
    sha2::Sha256::digest(data).to_vec()
}

/// Each byte as two lower-case hexadecimal digits.
pub open spec fn spec_hex_bytes(b: Seq<u8>) -> Seq<char>
    decreases b.len(),
{
    if b.len() == 0 {
        Seq::empty()
    } else {
        spec_hex_bytes(b.drop_last()) + seq![hex_digit((b.last() / 16) as u64), hex_digit((b.last() % 16) as u64)]
    }
}

fn digit(d: u8) -> (c: char)
    requires
        d < 16,
    ensures
        c == hex_digit(d as u64),
{
    let b: u8 = if d < 10 {
        d + 48
    } else {
        d + 87
    };
    b as char
}

/// Formats bytes as lower-case hexadecimal, two digits per byte.
pub fn hex_bytes(b: &[u8]) -> (s: String)
    ensures
        s@ == spec_hex_bytes(b@),
{
    let mut out: Vec<char> = Vec::new();
    let mut i: usize = 0;
    while i < b.len()
        invariant
            i <= b@.len(),
            out@ == spec_hex_bytes(b@.take(i as int)),
        decreases b@.len() - i,
    {
        assert(b@.take(i + 1).drop_last() =~= b@.take(i as int));
        out.push(digit(b[i] / 16));
        out.push(digit(b[i] % 16));
        i = i + 1;
        assert(out@ =~= spec_hex_bytes(b@.take(i as int)));
    }
    assert(b@.take(b@.len() as int) =~= b@);
    string_from_chars(out.as_slice())
}

impl Hasher {
    /// An incremental SHA-256 that has absorbed nothing.
    pub fn new() -> (h: Hasher)
        ensures
            absorbed(h) == Seq::<u8>::empty(),
    {
        sha256_new()
    }

    /// Absorbs a chunk after everything absorbed so far.
    pub fn absorb(&mut self, chunk: &[u8])
        ensures
            absorbed(*final(self)) == absorbed(*old(self)) + chunk@,
    {
        sha256_update(self, chunk)
    }

    /// The lower-case hexadecimal SHA-256 of everything absorbed.
    pub fn hex(self) -> (s: String)
        ensures
            s@ == spec_hex_bytes(sha256(absorbed(self))),
    {
        let d = sha256_finish(self);
        hex_bytes(d.as_slice())
    }
}

/// The hexadecimal SHA-256 digest of a byte slice.
pub fn sha256_hex(data: &[u8]) -> (s: String)
    ensures
        s@ == spec_hex_bytes(sha256(data@)),
{
    let d = sha256_digest(data);
    hex_bytes(d.as_slice())
}


/// Refuses a digest that differs from the expected one, naming what was checked.
pub fn verify_digest(actual: &str, expected: &str, name: &str) -> (r: Result<(), Error>)
    ensures
        actual@ == expected@ ==> r is Ok,
        actual@ != expected@ ==> (r matches Err(Error::ChecksumMismatch(n)) && n@ == name@),
{
    if !str_eq(actual, expected) {
        return Err(Error::ChecksumMismatch(name.to_owned()));
    }
    Ok(())
}

} // verus!
