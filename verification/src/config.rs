//! Settings: what their texts mean.

use vstd::prelude::*;
use vstd::string::*;
use vstd::utf8::encode_utf8;

use crate::text::{
    all_hex, chars_of, ends_with, hex_bytes, hex_decode, hex_fault, lower_text, same_text,
    strip_suffix, to_lower, trim, trimmed, HexError,
};
use crate::wire::array32;

verus! {

/// Whether a text is made of decimal digits.
pub open spec fn all_digits(s: Seq<char>) -> bool {
    forall|i: int| 0 <= i < s.len() ==> '0' <= #[trigger] s[i] <= '9'
}

/// The number that decimal digits spell.
pub open spec fn digits_value(s: Seq<char>) -> nat
    decreases s.len(),
{
    if s.len() == 0 {
        0
    } else {
        (digits_value(s.drop_last()) * 10 + (s.last() as int - '0' as int)) as nat
    }
}

/// The digits of a number, without the plus sign that may stand in front.
pub open spec fn unsigned_digits(s: Seq<char>) -> Seq<char> {
    if s.len() > 0 && s[0] == '+' {
        s.drop_first()
    } else {
        s
    }
}

/// The number that a text spells in decimal, if it spells one of 64 bits.
pub open spec fn number_of(s: Seq<char>) -> Option<u64> {
    let d = unsigned_digits(s);
    if d.len() > 0 && all_digits(d) && digits_value(d) <= u64::MAX {
        Some(digits_value(d) as u64)
    } else {
        None
    }
}

/// More digits do not spell a smaller number.
proof fn lemma_value_grows(s: Seq<char>, n: int)
    requires
        all_digits(s),
        0 <= n <= s.len(),
    ensures
        digits_value(s.take(n)) <= digits_value(s),
    decreases s.len() - n,
{
    if n < s.len() {
        lemma_value_grows(s, n + 1);
        assert(s.take(n + 1).drop_last() =~= s.take(n));
        assert('0' <= s[n] <= '9');
        assert(s.take(n + 1).last() == s[n]);
    } else {
        assert(s.take(n) =~= s);
    }
}

/// The number that a text spells in decimal, if it spells one of 64 bits.
fn parse_number(text: &str) -> (r: Option<u64>)
    ensures
        r == number_of(text@),
{
    let chars = chars_of(text);
    let mut i: usize = 0;
    if chars.len() > 0 && chars[0] == '+' {
        i = 1;
    }
    let ghost start = i as int;
    let ghost digits = unsigned_digits(text@);
    proof {
        assert(digits =~= text@.skip(start));
    }
    if i == chars.len() {
        return None;
    }
    let mut value: u64 = 0;
    proof {
        assert(digits.take(0) =~= Seq::empty());
    }
    while i < chars.len()
        invariant
            chars@ == text@,
            0 <= start <= i <= chars.len(),
            digits == text@.skip(start),
            digits == unsigned_digits(text@),
            forall|j: int| 0 <= j < i - start ==> '0' <= #[trigger] digits[j] <= '9',
            value == digits_value(digits.take(i - start)),
        decreases chars.len() - i,
    {
        let c = chars[i];
        proof {
            assert(digits[i - start] == c);
            assert(digits.take(i - start + 1).drop_last() =~= digits.take(i - start));
            assert(digits.take(i - start + 1).last() == c);
        }
        if c < '0' || c > '9' {
            return None;
        }
        let d: u64 = (c as u8 - 48) as u64;
        let next: u128 = value as u128 * 10 + d as u128;
        if next > 0xffff_ffff_ffff_ffff {
            proof {
                if all_digits(digits) {
                    lemma_value_grows(digits, i - start + 1);
                }
            }
            return None;
        }
        value = next as u64;
        i += 1;
    }
    proof {
        assert(digits.take(i - start) =~= digits);
    }
    Some(value)
}

/// Why a text is no duration.
#[derive(Clone, Copy, Debug, PartialEq, Eq, Structural)]
pub enum DurationError {
    /// It does not end in `ms`, `s` or `m`.
    NoUnit,
    /// What stands before the unit is no number.
    NoNumber,
}

/// The unit at the end of a duration: how many characters it has, and its nanoseconds.
pub open spec fn unit_of(s: Seq<char>) -> Option<(nat, u64)> {
    if ends_with(s, "ms"@) {
        Some(("ms"@.len(), 1_000_000))
    } else if ends_with(s, "s"@) {
        Some(("s"@.len(), 1_000_000_000))
    } else if ends_with(s, "m"@) {
        Some(("m"@.len(), 60_000_000_000))
    } else {
        None
    }
}

/// A product that stops at the largest number of 64 bits.
pub open spec fn capped_product(a: u64, b: u64) -> u64 {
    if a * b > u64::MAX {
        u64::MAX
    } else {
        (a * b) as u64
    }
}

/// The nanoseconds of a duration such as `500ms`, `2s` or `5m`.
pub open spec fn duration_of(s: Seq<char>) -> Result<u64, DurationError> {
    match unit_of(s) {
        None => Err(DurationError::NoUnit),
        Some((len, nanos)) => match number_of(s.subrange(0, s.len() - len)) {
            None => Err(DurationError::NoNumber),
            Some(n) => Ok(capped_product(n, nanos)),
        },
    }
}

/// The nanoseconds of a duration such as `500ms`, `2s` or `5m`.
pub fn parse_duration(value: &str) -> (r: Result<u64, DurationError>)
    ensures
        r == duration_of(value@),
{
    let (digits, nanos): (&str, u64) = if let Some(v) = strip_suffix(value, "ms") {
        (v, 1_000_000)
    } else if let Some(v) = strip_suffix(value, "s") {
        (v, 1_000_000_000)
    } else if let Some(v) = strip_suffix(value, "m") {
        (v, 60_000_000_000)
    } else {
        return Err(DurationError::NoUnit);
    };
    match parse_number(digits) {
        Some(n) => {
            let product: u128 = n as u128 * nanos as u128;
            if product > 0xffff_ffff_ffff_ffff {
                Ok(0xffff_ffff_ffff_ffff)
            } else {
                Ok(product as u64)
            }
        },
        None => Err(DurationError::NoNumber),
    }
}

/// Whether the STUN address switches STUN off.
pub fn is_off(value: &str) -> (r: bool)
    ensures
        r == (lower_text(value@) == lower_text("off"@)),
{
    let off = to_lower("off");
    same_text(to_lower(value).as_str(), off.as_str())
}

/// Why a text is no mesh key.
#[derive(Clone, Copy, Debug, PartialEq, Eq)]
pub enum MeshKeyError {
    /// It is not hexadecimal.
    Hex(HexError),
    /// It does not spell thirty-two bytes.
    Length,
}

/// The digits of a mesh key's text: white space around them is left out.
pub open spec fn mesh_key_digits(text: Seq<char>) -> Seq<u8> {
    encode_utf8(trimmed(text))
}

/// Reads the key that mesh members share: thirty-two bytes in hexadecimal.
pub fn parse_mesh_key(text: &str) -> (r: Result<[u8; 32], MeshKeyError>)
    ensures
        ({
            let digits = mesh_key_digits(text@);
            match r {
                Ok(key) => digits.len() == 64 && all_hex(digits) && key@ == hex_bytes(digits),
                Err(MeshKeyError::Hex(e)) => hex_fault(digits, e),
                Err(MeshKeyError::Length) => digits.len() % 2 == 0 && all_hex(digits)
                    && digits.len() != 64,
            }
        }),
{
    mesh_key_from_hex(trim(text))
}

/// The key that mesh members share, from its digits alone: thirty-two bytes in hexadecimal.
pub fn mesh_key_from_hex(text: &str) -> (r: Result<[u8; 32], MeshKeyError>)
    ensures
        ({
            let digits = encode_utf8(text@);
            match r {
                Ok(key) => digits.len() == 64 && all_hex(digits) && key@ == hex_bytes(digits),
                Err(MeshKeyError::Hex(e)) => hex_fault(digits, e),
                Err(MeshKeyError::Length) => digits.len() % 2 == 0 && all_hex(digits)
                    && digits.len() != 64,
            }
        }),
{
    match hex_decode(text) {
        Ok(raw) => if raw.len() == 32 {
            Ok(array32(raw.as_slice()))
        } else {
            Err(MeshKeyError::Length)
        },
        Err(e) => Err(MeshKeyError::Hex(e)),
    }
}

/// What clients are told before a restart, from the grace period in milliseconds: when to come
/// back, and three times that for how long to try. Both stop at the largest number of 32 bits.
pub fn restart_times(grace_ms: u128) -> (r: (u32, u32))
    ensures
        r.0 == (if grace_ms > u32::MAX {
            u32::MAX as int
        } else {
            grace_ms as int
        }),
        r.1 == (if 3 * r.0 > u32::MAX {
            u32::MAX as int
        } else {
            3 * r.0
        }),
{
    let ms: u32 = if grace_ms > 0xffff_ffff {
        0xffff_ffff
    } else {
        grace_ms as u32
    };
    let tripled: u64 = 3 * ms as u64;
    let try_for: u32 = if tripled > 0xffff_ffff {
        0xffff_ffff
    } else {
        tripled as u32
    };
    (ms, try_for)
}

} // verus!
