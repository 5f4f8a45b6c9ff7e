//! What the texts of settings mean, and the limits that are fixed.

use vstd::prelude::*;
use vstd::string::*;
use vstd::utf8::encode_utf8;

use crate::config::{
    all_digits, digits_value, is_off, mesh_key_from_hex, number_of, parse_duration,
    parse_mesh_key, restart_times, unsigned_digits, DurationError, MeshKeyError,
};
use crate::laws::keys::{is_fault, lemma_fault, lemma_reads_as, reads_as};
use crate::laws::plain::{is_trim, lemma_lowered, lemma_trimmed, value_of};
use crate::text::{hex_bytes, lower_text, trimmed};

verus! {

/// Whether a text is made of decimal digits that spell a number.
pub open spec fn is_decimal(d: Seq<char>, n: nat) -> bool {
    &&& d.len() > 0
    &&& forall|i: int| 0 <= i < d.len() ==> '0' <= #[trigger] d[i] <= '9'
    &&& value_of(d) == n
}

/// Whether a text spells a number in decimal, with or without a plus sign in front.
pub open spec fn reads_number(s: Seq<char>, n: nat) -> bool {
    if s.len() > 0 && s[0] == '+' {
        is_decimal(s.drop_first(), n)
    } else {
        is_decimal(s, n)
    }
}

proof fn lemma_value(s: Seq<char>)
    ensures
        digits_value(s) == value_of(s),
    decreases s.len(),
{
    if s.len() > 0 {
        lemma_value(s.drop_last());
    }
}

proof fn lemma_number_of(s: Seq<char>)
    ensures
        number_of(s) matches Some(n) ==> reads_number(s, n as nat),
        number_of(s) is None ==> forall|n: nat| n <= u64::MAX ==> !#[trigger] reads_number(s, n),
{
    let d = unsigned_digits(s);
    lemma_value(d);
    assert forall|n: nat| n <= u64::MAX && #[trigger] reads_number(s, n) implies number_of(
        s,
    ) is Some by {
        assert(is_decimal(d, n));
        assert(all_digits(d));
    }
}

/// The nanoseconds of the unit that a text ends in, and how many characters it has: `ms`, `s` or
/// `m`.
pub open spec fn unit(s: Seq<char>) -> Option<(int, int)> {
    let n = s.len();
    if n >= 2 && s[n - 2] == 'm' && s[n - 1] == 's' {
        Some((1_000_000, 2))
    } else if n >= 1 && s[n - 1] == 's' {
        Some((1_000_000_000, 1))
    } else if n >= 1 && s[n - 1] == 'm' {
        Some((60_000_000_000, 1))
    } else {
        None
    }
}

/// A duration is a number and a unit. It has as many nanoseconds as the two make, or the most that
/// 64 bits hold.
pub proof fn law_durations(text: &str, r: Result<u64, DurationError>)
    requires
        call_ensures(parse_duration, (text,), r),
    ensures
        match unit(text@) {
            None => r == Err::<u64, DurationError>(DurationError::NoUnit),
            Some((nanos, len)) => {
                let front = text@.take(text@.len() - len);
                match r {
                    Ok(d) => exists|n: nat| #[trigger]
                        reads_number(front, n) && n <= u64::MAX && d == (if n * nanos > u64::MAX {
                            u64::MAX as int
                        } else {
                            n * nanos
                        }),
                    Err(e) => e == DurationError::NoNumber && (forall|n: nat|
                        n <= u64::MAX ==> !#[trigger] reads_number(front, n)),
                }
            },
        },
{
    let s = text@;
    reveal_strlit("ms");
    reveal_strlit("s");
    reveal_strlit("m");
    assert("ms"@ =~= seq!['m', 's']);
    assert("s"@ =~= seq!['s']);
    assert("m"@ =~= seq!['m']);
    let n = s.len() as int;
    if n >= 2 {
        let tail = s.subrange(n - 2, n);
        assert(tail =~= seq![s[n - 2], s[n - 1]]);
        assert(tail == seq!['m', 's'] ==> tail[0] == 'm' && tail[1] == 's');
    }
    if n >= 1 {
        let tail = s.subrange(n - 1, n);
        assert(tail =~= seq![s[n - 1]]);
        assert(tail == seq!['s'] ==> tail[0] == 's');
        assert(tail == seq!['m'] ==> tail[0] == 'm');
    }
    if let Some((nanos, len)) = unit(s) {
        let front = s.take(n - len);
        assert(front =~= s.subrange(0, n - len));
        lemma_number_of(front);
    }
}

/// STUN is switched off by `off` in letters of either case, and by nothing else.
pub proof fn law_off(text: &str, r: bool)
    requires
        call_ensures(is_off, (text,), r),
    ensures
        r <==> text@.len() == 3 && (text@[0] == 'o' || text@[0] == 'O') && (text@[1] == 'f'
            || text@[1] == 'F') && (text@[2] == 'f' || text@[2] == 'F'),
{
    let s = text@;
    reveal_strlit("off");
    assert("off"@ =~= seq!['o', 'f', 'f']);
    lemma_lowered(s);
    lemma_lowered("off"@);
    let (a, b) = (lower_text(s), lower_text("off"@));
    assert(b.len() == 3 && b[0] == 'o' && b[1] == 'f' && b[2] == 'f');
    if s.len() == 3 && (s[0] == 'o' || s[0] == 'O') && (s[1] == 'f' || s[1] == 'F') && (s[2] == 'f'
        || s[2] == 'F') {
        assert(a[0] as int == 'o' as int);
        assert(a[1] as int == 'f' as int);
        assert(a[2] as int == 'f' as int);
        assert(a =~= b);
    }
    if a == b {
        assert(a[0] == 'o' && a[1] == 'f' && a[2] == 'f');
    }
}

/// Whether digits are read as a mesh key: 64 of them spell thirty-two bytes.
pub open spec fn is_mesh_key(digits: Seq<u8>, r: Result<[u8; 32], MeshKeyError>) -> bool {
    match r {
        Ok(key) => reads_as(digits, key@),
        Err(MeshKeyError::Hex(e)) => is_fault(digits, e),
        Err(MeshKeyError::Length) => exists|bytes: Seq<u8>| #[trigger]
            reads_as(digits, bytes) && bytes.len() != 32,
    }
}

proof fn lemma_mesh_key(digits: Seq<u8>, r: Result<[u8; 32], MeshKeyError>)
    requires
        match r {
            Ok(key) => digits.len() == 64 && crate::text::all_hex(digits) && key@ == hex_bytes(digits),
            Err(MeshKeyError::Hex(e)) => crate::text::hex_fault(digits, e),
            Err(MeshKeyError::Length) => digits.len() % 2 == 0 && crate::text::all_hex(digits)
                && digits.len() != 64,
        },
    ensures
        is_mesh_key(digits, r),
{
    match r {
        Err(MeshKeyError::Hex(e)) => {
            lemma_fault(digits, e);
        },
        _ => {
            lemma_reads_as(digits);
        },
    }
}

/// The key that mesh members share is read from 64 hexadecimal digits, which may have white space
/// around them in a file.
pub proof fn law_mesh_keys(
    text: &str,
    digits: &str,
    a: Result<[u8; 32], MeshKeyError>,
    b: Result<[u8; 32], MeshKeyError>,
)
    requires
        call_ensures(parse_mesh_key, (text,), a),
        call_ensures(mesh_key_from_hex, (digits,), b),
    ensures
        exists|t: Seq<char>| #[trigger] is_trim(t, text@) && is_mesh_key(encode_utf8(t), a),
        is_mesh_key(encode_utf8(digits@), b),
{
    lemma_trimmed(text@);
    let t = trimmed(text@);
    lemma_mesh_key(encode_utf8(t), a);
    lemma_mesh_key(encode_utf8(digits@), b);
    assert(is_trim(t, text@) && is_mesh_key(encode_utf8(t), a));
}

/// Clients are told to come back after the grace period and to try for three times that, each in
/// milliseconds and at most what 32 bits hold.
pub proof fn law_restart_times(grace: u128, r: (u32, u32))
    requires
        call_ensures(restart_times, (grace,), r),
    ensures
        grace <= 4_294_967_295 ==> r.0 == grace,
        grace > 4_294_967_295 ==> r.0 == 4_294_967_295,
        3 * r.0 <= 4_294_967_295 ==> r.1 == 3 * r.0,
        3 * r.0 > 4_294_967_295 ==> r.1 == 4_294_967_295,
{
}

/// The times in nanoseconds and the sizes in bytes that the server goes by.
pub proof fn law_fixed_limits()
    ensures
        crate::server::HANDSHAKE_LIMIT == 262_144 + 32 + 64,
        crate::server::READER_LIMIT == 65_536 + 2 * 32 + 1024,
        crate::server::HANDSHAKE_TIMEOUT == 10_000_000_000,
        crate::server::ADMISSION_TIMEOUT == 5_000_000_000,
        crate::server::KEEPALIVE_EVERY == 60_000_000_000,
        crate::server::CLOSE_CHECK_EVERY == 250_000_000,
        crate::server::SHRINK_AFTER == 15_000_000_000,
        crate::mesh::GREETING_LIMIT == 1024,
        crate::mesh::MESH_READER_LIMIT == 65_536 + 128,
        crate::mesh::RETRY_AFTER == 2_000_000_000,
        crate::http::BRIDGE_ROOM == 262_144,
        crate::http::BRIDGE_CHUNK == 65_536,
{
}

} // verus!
