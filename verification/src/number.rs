//! Unsigned numbers written in decimal or with a `0x` hexadecimal prefix.
use vstd::prelude::*;
use crate::error::Error;
use crate::text::chars_of;

verus! {

/// The value of a digit character in the given radix (10 or 16).
pub open spec fn digit_value(c: char, radix: nat) -> Option<nat> {
    if '0' <= c && c <= '9' {
        Some((c as nat - '0' as nat) as nat)
    } else if radix == 16 && 'a' <= c && c <= 'f' {
        Some((c as nat - 'a' as nat + 10) as nat)
    } else if radix == 16 && 'A' <= c && c <= 'F' {
        Some((c as nat - 'A' as nat + 10) as nat)
    } else {
        None
    }
}

/// The unbounded value of a digit string, or `None` when some character is no digit.
pub open spec fn digits_value(ds: Seq<char>, radix: nat) -> Option<nat>
    decreases ds.len(),
{
    if ds.len() == 0 {
        Some(0)
    } else {
        match (digits_value(ds.drop_last(), radix), digit_value(ds.last(), radix)) {
            (Some(v), Some(d)) => Some(v * radix + d),
            _ => None,
        }
    }
}

/// `u64::from_str_radix`: an optional `+`, then at least one digit, and a value that
/// fits in 64 bits.
pub open spec fn parse_radix(s: Seq<char>, radix: nat) -> Option<u64> {
    let ds = if s.len() > 0 && s[0] == '+' {
        s.drop_first()
    } else {
        s
    };
    if ds.len() == 0 {
        None
    } else {
        match digits_value(ds, radix) {
            Some(v) => if v <= u64::MAX {
                Some(v as u64)
            } else {
                None
            },
            None => None,
        }
    }
}

/// A `0x`-prefixed hexadecimal number, or otherwise a decimal one.
pub open spec fn spec_number(s: Seq<char>) -> Option<u64> {
    if s.len() >= 2 && s[0] == '0' && s[1] == 'x' {
        parse_radix(s.skip(2), 16)
    } else {
        parse_radix(s, 10)
    }
}

fn digit(c: char, radix: u64) -> (r: Option<u64>)
    requires
        radix == 10 || radix == 16,
    ensures
        match digit_value(c, radix as nat) {
            Some(d) => r == Some(d as u64) && d < radix,
            None => r is None,
        },
{
    if '0' <= c && c <= '9' {
        Some((c as u32 - '0' as u32) as u64)
    } else if radix == 16 && 'a' <= c && c <= 'f' {
        Some((c as u32 - 'a' as u32 + 10) as u64)
    } else if radix == 16 && 'A' <= c && c <= 'F' {
        Some((c as u32 - 'A' as u32 + 10) as u64)
    } else {
        None
    }
}

proof fn lemma_digits_mono(ds: Seq<char>, radix: nat)
    requires
        radix >= 2,
        ds.len() > 0,
        digits_value(ds, radix) is Some,
    ensures
        digits_value(ds.drop_last(), radix) is Some,
        digits_value(ds.drop_last(), radix)->0 <= digits_value(ds, radix)->0,
{
    let v = digits_value(ds.drop_last(), radix)->0;
    assert(v * radix >= v) by (nonlinear_arith)
        requires
            radix >= 2,
    ;
}

/// Once a prefix's value exceeds `u64::MAX`, every extension does too (or is invalid).
proof fn lemma_digits_overflow(ds: Seq<char>, k: int, radix: nat)
    requires
        radix >= 2,
        0 <= k <= ds.len(),
        digits_value(ds.take(k), radix) is Some,
        digits_value(ds.take(k), radix)->0 > u64::MAX,
    ensures
        match digits_value(ds, radix) {
            Some(v) => v > u64::MAX,
            None => true,
        },
    decreases ds.len() - k,
{
    if k < ds.len() {
        let t = ds.take(k + 1);
        assert(t.drop_last() =~= ds.take(k));
        if digits_value(t, radix) is Some {
            lemma_digits_mono(t, radix);
            lemma_digits_overflow(ds, k + 1, radix);
        } else {
            lemma_digits_none(ds, k + 1, radix);
        }
    } else {
        assert(ds.take(k) =~= ds);
    }
}

/// An invalid prefix makes the whole digit string invalid.
proof fn lemma_digits_none(ds: Seq<char>, k: int, radix: nat)
    requires
        0 <= k <= ds.len(),
        digits_value(ds.take(k), radix) is None,
    ensures
        digits_value(ds, radix) is None,
    decreases ds.len() - k,
{
    if k < ds.len() {
        let t = ds.take(k + 1);
        assert(t.drop_last() =~= ds.take(k));
        lemma_digits_none(ds, k + 1, radix);
    } else {
        assert(ds.take(k) =~= ds);
    }
}

/// Parses `cs[start..]` in the given radix (see [`parse_radix`]).
pub fn parse_radix_exec(cs: &[char], start: usize, radix: u64) -> (r: Option<u64>)
    requires
        radix == 10 || radix == 16,
        start <= cs@.len(),
    ensures
        r == parse_radix(cs@.skip(start as int), radix as nat),
{
    let ghost s = cs@.skip(start as int);
    let n = cs.len();
    let mut i = start;
    if i < n && cs[i] == '+' {
        i = i + 1;
    }
    let ghost ds = cs@.skip(i as int);
    proof {
        if s.len() > 0 && s[0] == '+' {
            assert(s.drop_first() =~= ds);
        } else {
            assert(s =~= ds);
        }
    }
    if i == n {
        return None;
    }
    let ghost target = parse_radix(s, radix as nat);
    assert(target == match digits_value(ds, radix as nat) {
        Some(v) => if v <= u64::MAX {
            Some(v as u64)
        } else {
            None
        },
        None => None,
    });
    let first = i;
    let mut value: u64 = 0;
    assert(ds.take(0) =~= Seq::<char>::empty());
    while i < n
        invariant
            n == cs@.len(),
            first <= i <= n,
            first < n,
            ds == cs@.skip(first as int),
            radix == 10 || radix == 16,
            digits_value(ds.take(i - first), radix as nat) == Some(value as nat),
            s == cs@.skip(start as int),
            target == parse_radix(s, radix as nat),
            target == match digits_value(ds, radix as nat) {
                Some(v) => if v <= u64::MAX {
                    Some(v as u64)
                } else {
                    None
                },
                None => None,
            },
        decreases n - i,
    {
        let ghost k = i - first;
        assert(ds.take(k + 1).drop_last() =~= ds.take(k));
        assert(ds.take(k + 1).last() == cs@[i as int]);
        match digit(cs[i], radix) {
            None => {
                proof {
                    lemma_digits_none(ds, k + 1, radix as nat);
                }
                return None;
            },
            Some(d) => {
                match value.checked_mul(radix) {
                    None => {
                        proof {
                            assert(value * radix + d > u64::MAX);
                            lemma_digits_overflow(ds, k + 1, radix as nat);
                        }
                        return None;
                    },
                    Some(m) => match m.checked_add(d) {
                        None => {
                            proof {
                                lemma_digits_overflow(ds, k + 1, radix as nat);
                            }
                            return None;
                        },
                        Some(v) => {
                            value = v;
                        },
                    },
                }
            },
        }
        i = i + 1;
    }
    assert(ds.take(n - first) =~= ds);
    Some(value)
}

/// Parses an unsigned offset or identity: decimal, or hexadecimal after `0x`.
pub fn number(s: &str) -> (r: Result<u64, Error>)
    ensures
        match spec_number(s@) {
            Some(v) => r == Ok::<u64, Error>(v),
            None => r is Err,
        },
        r matches Err(e) ==> (e matches Error::InvalidNumber(t) && t@ == s@),
{
    let cs = chars_of(s);
    let n = cs.len();
    let parsed = if n >= 2 && cs[0] == '0' && cs[1] == 'x' {
        parse_radix_exec(cs.as_slice(), 2, 16)
    } else {
        assert(cs@.skip(0) =~= cs@);
        parse_radix_exec(cs.as_slice(), 0, 10)
    };
    match parsed {
        Some(v) => Ok(v),
        None => Err(Error::InvalidNumber(s.to_owned())),
    }
}

/// The digit character of a value below 16: `0`-`9`, then lower-case `a`-`f`.
pub open spec fn digit_char(d: nat) -> char {
    if d == 0 { '0' } else if d == 1 { '1' } else if d == 2 { '2' } else if d == 3 { '3' }
    else if d == 4 { '4' } else if d == 5 { '5' } else if d == 6 { '6' } else if d == 7 { '7' }
    else if d == 8 { '8' } else if d == 9 { '9' } else if d == 10 { 'a' } else if d == 11 { 'b' }
    else if d == 12 { 'c' } else if d == 13 { 'd' } else if d == 14 { 'e' } else { 'f' }
}

/// How `n` is written in `radix` (10 or 16) without leading zeros and with lower-case
/// hexadecimal digits, as Rust's `{}` and `{:x}` formats write it.
pub open spec fn written(n: nat, radix: nat) -> Seq<char>
    decreases n,
{
    if radix < 2 || n < radix {
        seq![digit_char(n)]
    } else {
        proof {
            assert(n / radix < n) by (nonlinear_arith)
                requires
                    radix >= 2,
                    n >= radix,
            ;
        }
        written(n / radix, radix).push(digit_char(n % radix))
    }
}

proof fn lemma_digit_char(d: nat, radix: nat)
    requires
        radix == 10 || radix == 16,
        d < radix,
    ensures
        digit_value(digit_char(d), radix) == Some(d),
        digit_char(d) != '+' && digit_char(d) != 'x',
{
}

proof fn lemma_written(n: nat, radix: nat)
    requires
        radix == 10 || radix == 16,
    ensures
        digits_value(written(n, radix), radix) == Some(n),
        written(n, radix).len() > 0,
        forall|i: int| 0 <= i < written(n, radix).len() ==> (#[trigger] written(n, radix)[i]) != '+' && written(n, radix)[i] != 'x',
    decreases n,
{
    if n < radix {
        lemma_digit_char(n, radix);
        let w = written(n, radix);
        assert(w == seq![digit_char(n)]);
        assert(w.drop_last() =~= Seq::<char>::empty());
        assert(digits_value(w.drop_last(), radix) == Some(0nat));
        assert(digits_value(w, radix) == Some(0 * radix + n));
    } else {
        let q = n / radix;
        let r = n % radix;
        assert(q < n && r < radix && q * radix + r == n) by (nonlinear_arith)
            requires
                radix >= 2,
                n >= radix,
                q == n / radix,
                r == n % radix,
        ;
        lemma_written(q, radix);
        lemma_digit_char(r, radix);
        let w = written(n, radix);
        assert(w.drop_last() =~= written(q, radix));
        assert(w.last() == digit_char(r));
        assert(digits_value(w, radix) == Some(q * radix + r));
        assert forall|i: int| 0 <= i < w.len() implies (#[trigger] w[i]) != '+' && w[i] != 'x' by {
            if i < w.len() - 1 {
                assert(w[i] == written(q, radix)[i]);
            }
        }
    }
}

/// Law: a number written in decimal, or in lower-case hexadecimal after `0x`, reads back
/// as itself.
pub proof fn law_number_round_trip(n: u64)
    ensures
        spec_number(written(n as nat, 10)) == Some(n),
        spec_number(seq!['0', 'x'] + written(n as nat, 16)) == Some(n),
{
    lemma_written(n as nat, 10);
    lemma_written(n as nat, 16);
    let d = written(n as nat, 10);
    if d.len() >= 2 {
        assert(d[1] != 'x');
    }
    assert(d[0] != '+');
    let h = seq!['0', 'x'] + written(n as nat, 16);
    assert(h.skip(2) =~= written(n as nat, 16));
    assert(written(n as nat, 16)[0] != '+');
}

} // verus!
