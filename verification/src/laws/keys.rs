//! Keys: their bytes, their texts and what they seal.

use vstd::prelude::*;
use vstd::string::*;
use vstd::utf8::encode_utf8;

use crate::crypto::{
    box_opened, box_public, box_sealed, is_clamped, law_key_file_round_trip,
    law_node_key_text_round_trip, without_prefix, KeyError, KeyTextError, NodeKey, NodeKeyPair,
};
use crate::laws::frames::names_a_node;
use crate::laws::plain::{from, is_hex, is_trim, lemma_hex, lemma_trimmed, part};
use crate::protocol::ProtocolError;
use crate::text::{all_hex, hex_bytes, hex_text, trimmed, HexError};

verus! {

/// The value of a byte that spells a hexadecimal digit, in either case; 16 where it spells none.
pub open spec fn digit_value(b: u8) -> int {
    if 0x30 <= b <= 0x39 {
        b - 0x30
    } else if 0x61 <= b <= 0x66 {
        b - 0x61 + 10
    } else if 0x41 <= b <= 0x46 {
        b - 0x41 + 10
    } else {
        16
    }
}

/// Whether bytes spell others with two hexadecimal digits each, the higher one first.
pub open spec fn reads_as(digits: Seq<u8>, bytes: Seq<u8>) -> bool {
    &&& digits.len() == 2 * bytes.len()
    &&& forall|i: int|
        0 <= i < bytes.len() ==> digit_value(digits[2 * i]) < 16 && digit_value(digits[2 * i + 1])
            < 16 && #[trigger] bytes[i] == digit_value(digits[2 * i]) * 16 + digit_value(
            digits[2 * i + 1],
        )
}

/// What is wrong with hexadecimal digits: their number is odd, or else this is the first that is
/// none.
pub open spec fn is_fault(digits: Seq<u8>, e: HexError) -> bool {
    match e {
        HexError::OddLength => digits.len() % 2 == 1,
        HexError::InvalidHexCharacter { c, index } => {
            &&& digits.len() % 2 == 0
            &&& index < digits.len()
            &&& digit_value(digits[index as int]) == 16
            &&& c as int == digits[index as int] as int
            &&& forall|i: int| 0 <= i < index ==> digit_value(#[trigger] digits[i]) < 16
        },
        HexError::InvalidStringLength => false,
    }
}

/// What digits spell.
pub proof fn lemma_reads_as(digits: Seq<u8>)
    requires
        digits.len() % 2 == 0,
        all_hex(digits),
    ensures
        reads_as(digits, hex_bytes(digits)),
{
    let bytes = hex_bytes(digits);
    assert forall|i: int| 0 <= i < bytes.len() implies digit_value(digits[2 * i]) < 16
        && digit_value(digits[2 * i + 1]) < 16 && #[trigger] bytes[i] == digit_value(digits[2 * i])
        * 16 + digit_value(digits[2 * i + 1]) by {
        assert(crate::text::hex_value(digits[2 * i]) is Some);
        assert(crate::text::hex_value(digits[2 * i + 1]) is Some);
    }
}

/// What is wrong with digits.
pub proof fn lemma_fault(digits: Seq<u8>, e: HexError)
    requires
        crate::text::hex_fault(digits, e),
    ensures
        is_fault(digits, e),
{
    if let HexError::InvalidHexCharacter { c, index } = e {
        let front = digits.subrange(0, index as int);
        assert forall|i: int| 0 <= i < index implies digit_value(#[trigger] digits[i]) < 16 by {
            assert(crate::text::hex_value(front[i]) is Some);
        }
    }
}

/// A node key is thirty-two bytes that are not all zero, and no others.
pub proof fn law_node_keys(
    bytes: [u8; 32],
    value: &[u8],
    a: Result<NodeKey, ProtocolError>,
    b: Result<NodeKey, ProtocolError>,
)
    requires
        call_ensures(NodeKey::new, (bytes,), a),
        call_ensures(NodeKey::from_slice, (value,), b),
    ensures
        names_a_node(bytes@) ==> (a matches Ok(k) && k@ == bytes@),
        !names_a_node(bytes@) ==> a == Err::<NodeKey, ProtocolError>(ProtocolError::InvalidKey),
        names_a_node(value@) ==> (b matches Ok(k) && k@ == value@),
        !names_a_node(value@) ==> b == Err::<NodeKey, ProtocolError>(ProtocolError::InvalidKey),
{
    crate::laws::frames::lemma_names(bytes@);
    crate::laws::frames::lemma_names(value@);
}

/// A key is shown in hexadecimal: whole, by its first four bytes, or with `nodekey:` in front.
pub proof fn law_keys_are_shown(
    key: NodeKey,
    bytes: &[u8; 32],
    hex: String,
    short: String,
    text: String,
    short_text: String,
)
    requires
        call_ensures(NodeKey::as_bytes, (&key,), bytes),
        call_ensures(NodeKey::to_hex, (key,), hex),
        call_ensures(NodeKey::short, (key,), short),
        call_ensures(NodeKey::to_text, (key,), text),
        call_ensures(NodeKey::to_short_text, (key,), short_text),
    ensures
        bytes@ == key@,
        is_hex(hex@, key@),
        is_hex(short@, part(key@, 0, 4)),
        text@ == "nodekey:"@ + hex@,
        short_text@ == "nodekey:"@ + short@,
{
    lemma_hex(key@);
    lemma_hex(part(key@, 0, 4));
}

/// Whether a text is these digits, with or without this in front.
pub open spec fn is_prefixed(text: Seq<char>, prefix: Seq<char>, digits: Seq<char>) -> bool {
    if text.len() >= prefix.len() && text.take(prefix.len() as int) == prefix {
        text == prefix + digits
    } else {
        text == digits
    }
}

proof fn lemma_prefixed(text: Seq<char>, prefix: Seq<char>)
    ensures
        is_prefixed(text, prefix, without_prefix(text, prefix)),
{
    if text.len() >= prefix.len() {
        assert(text.take(prefix.len() as int) =~= text.subrange(0, prefix.len() as int));
        if text.take(prefix.len() as int) == prefix {
            let rest = text.subrange(prefix.len() as int, text.len() as int);
            assert(prefix + rest =~= text);
        }
    }
}

/// A text is read as the key that its digits spell, with or without `nodekey:` in front of them.
pub proof fn law_keys_are_read(text: &str, r: Result<NodeKey, KeyTextError>)
    requires
        call_ensures(NodeKey::from_text, (text,), r),
    ensures
        exists|digits: Seq<char>| #[trigger]
            is_prefixed(text@, "nodekey:"@, digits) && match r {
                Ok(key) => reads_as(encode_utf8(digits), key@) && names_a_node(key@),
                Err(KeyTextError::Hex(e)) => is_fault(encode_utf8(digits), e),
                Err(KeyTextError::Key) => exists|bytes: Seq<u8>| #[trigger]
                    reads_as(encode_utf8(digits), bytes) && !names_a_node(bytes),
            },
{
    let digits = without_prefix(text@, "nodekey:"@);
    let d = encode_utf8(digits);
    lemma_prefixed(text@, "nodekey:"@);
    crate::laws::frames::lemma_names(hex_bytes(d));
    match r {
        Err(KeyTextError::Hex(e)) => {
            lemma_fault(d, e);
        },
        _ => {
            lemma_reads_as(d);
        },
    }
    assert(is_prefixed(text@, "nodekey:"@, digits));
}

/// A key that is shown is read back.
pub proof fn law_shown_keys_are_read_back(
    key: NodeKey,
    shown: String,
    text: &str,
    r: Result<NodeKey, KeyTextError>,
)
    requires
        call_ensures(NodeKey::to_text, (key,), shown),
        call_ensures(NodeKey::from_text, (text,), r),
        text@ == shown@,
        names_a_node(key@),
    ensures
        r matches Ok(k) && k@ == key@,
{
    crate::laws::frames::lemma_names(key@);
    law_node_key_text_round_trip(key@);
    let d = encode_utf8(without_prefix(shown@, "nodekey:"@));
    if let Err(KeyTextError::Hex(e)) = r {
        if let HexError::InvalidHexCharacter { c, index } = e {
            assert(crate::text::hex_value(d[index as int]) is Some);
        }
    }
}

/// Whether a byte is another one with its low three bits cleared.
pub open spec fn low_cleared(a: u8, b: u8) -> bool {
    b == a - a % 8
}

/// Whether a byte is another one with its high bit cleared and the next one set.
pub open spec fn high_set(a: u8, b: u8) -> bool {
    64 <= b < 128 && b % 64 == a % 64
}

/// Whether these are the bytes of a private key that thirty-two bytes stand for.
pub open spec fn is_private(raw: Seq<u8>, secret: Seq<u8>) -> bool {
    &&& raw.len() == 32 && secret.len() == 32
    &&& low_cleared(raw[0], secret[0])
    &&& high_set(raw[31], secret[31])
    &&& forall|i: int| 0 < i < 31 ==> #[trigger] secret[i] == raw[i]
}

proof fn lemma_private(raw: Seq<u8>)
    requires
        raw.len() == 32,
    ensures
        is_private(raw, crate::crypto::clamped(raw)),
{
    let (a, b) = (raw[0], raw[31]);
    assert(a & 248 == a - a % 8) by (bit_vector);
    assert(64 <= (b & 127) | 64 < 128 && ((b & 127) | 64) % 64 == b % 64) by (bit_vector);
}

/// A private key keeps its bytes but for the low three bits of the first and the high two of the
/// last; the all-zero key is refused.
pub proof fn law_private_keys(
    raw: [u8; 32],
    a: NodeKeyPair,
    b: Result<NodeKeyPair, KeyError>,
    bytes: [u8; 32],
)
    requires
        call_ensures(NodeKeyPair::from_random, (raw,), a),
        call_ensures(NodeKeyPair::from_bytes, (raw,), b),
        call_ensures(NodeKeyPair::private_bytes, (&a,), bytes),
    ensures
        is_private(raw@, bytes@),
        names_a_node(raw@) ==> (b matches Ok(pair) && pair.secret() == bytes@),
        !names_a_node(raw@) ==> b == Err::<NodeKeyPair, KeyError>(KeyError::Invalid),
{
    lemma_private(raw@);
    crate::laws::frames::lemma_names(raw@);
}

/// A fresh key pair has a private key of that form.
pub proof fn law_fresh_keys(pair: NodeKeyPair, bytes: [u8; 32])
    requires
        call_ensures(NodeKeyPair::generate, (), pair),
        call_ensures(NodeKeyPair::private_bytes, (&pair,), bytes),
    ensures
        bytes@[0] % 8 == 0,
        64 <= bytes@[31] < 128,
{
    let (a, b) = (bytes@[0], bytes@[31]);
    assert(a & 248 == a ==> a % 8 == 0) by (bit_vector);
    assert((b & 127) | 64 == b ==> 64 <= b < 128) by (bit_vector);
}

/// A key pair's public key is that of its private key.
pub proof fn law_public_keys(pair: NodeKeyPair, bytes: [u8; 32], r: NodeKey)
    requires
        call_ensures(NodeKeyPair::private_bytes, (&pair,), bytes),
        call_ensures(NodeKeyPair::public, (&pair,), r),
    ensures
        r@ == box_public(bytes@),
        names_a_node(r@),
{
    crate::laws::frames::lemma_names(r@);
}

/// A sealed message is its nonce of 24 bytes and then the box under that nonce, which has sixteen
/// bytes more than the message.
pub proof fn law_messages_are_sealed(
    pair: NodeKeyPair,
    peer: NodeKey,
    nonce: &[u8; 24],
    text: &[u8],
    r: Result<Vec<u8>, KeyError>,
)
    requires
        call_ensures(NodeKeyPair::seal_with_nonce, (&pair, peer, nonce, text), r),
    ensures
        r matches Ok(out) && {
            &&& out@.len() == 40 + text@.len()
            &&& part(out@, 0, 24) == nonce@
            &&& from(out@, 24) == box_sealed(pair.secret(), peer@, nonce@, text@)
        },
{
}

/// A message that is too short for a nonce, or whose box does not open, is refused; another one
/// gives what its box holds.
pub proof fn law_messages_are_opened(
    pair: NodeKeyPair,
    peer: NodeKey,
    sealed: &[u8],
    r: Result<Vec<u8>, KeyError>,
)
    requires
        call_ensures(NodeKeyPair::open_from, (&pair, peer, sealed), r),
    ensures
        ({
            let held = box_opened(pair.secret(), peer@, part(sealed@, 0, 24), from(sealed@, 24));
            &&& sealed@.len() < 24 || held is None ==> r == Err::<Vec<u8>, KeyError>(
                KeyError::Crypto,
            )
            &&& sealed@.len() >= 24 && held is Some ==> (r matches Ok(text) && text@ == held->0)
        }),
{
}

/// What one node seals to another, the other opens.
pub proof fn law_sealed_messages_open(
    a: NodeKeyPair,
    b: NodeKeyPair,
    a_public: NodeKey,
    b_public: NodeKey,
    b_bytes: [u8; 32],
    text: &[u8],
    sealed: Vec<u8>,
    message: &[u8],
    r: Result<Vec<u8>, KeyError>,
)
    requires
        call_ensures(NodeKeyPair::public, (&a,), a_public),
        call_ensures(NodeKeyPair::public, (&b,), b_public),
        call_ensures(NodeKeyPair::private_bytes, (&b,), b_bytes),
        call_ensures(NodeKeyPair::seal_to, (&a, b_public, text), Ok::<Vec<u8>, KeyError>(sealed)),
        call_ensures(NodeKeyPair::open_from, (&b, a_public, message), r),
        message@ == sealed@,
    ensures
        sealed@.len() == 40 + text@.len(),
        r matches Ok(out) && out@ == text@,
{
    assert(b_bytes@.len() == 32);
    assert(box_public(b.secret()) == b_public@);
}

/// A key file's text is read as the private key that its digits spell, with or without `privkey:`
/// in front of them and white space around it all.
pub proof fn law_key_files_are_read(text: &str, r: Result<NodeKeyPair, KeyError>)
    requires
        call_ensures(NodeKeyPair::from_text, (text,), r),
    ensures
        exists|value: Seq<char>, digits: Seq<char>| #[trigger]
            is_trim(value, text@) && #[trigger] is_prefixed(value, "privkey:"@, digits) && match r {
                Ok(pair) => exists|raw: Seq<u8>| #[trigger]
                    reads_as(encode_utf8(digits), raw) && names_a_node(raw) && is_private(
                        raw,
                        pair.secret(),
                    ),
                Err(KeyError::Hex(e)) => is_fault(encode_utf8(digits), e),
                Err(KeyError::Invalid) => exists|raw: Seq<u8>| #[trigger]
                    reads_as(encode_utf8(digits), raw) && !names_a_node(raw),
                Err(KeyError::Crypto) => false,
            },
{
    let value = trimmed(text@);
    let digits = without_prefix(value, "privkey:"@);
    let d = encode_utf8(digits);
    lemma_trimmed(text@);
    lemma_prefixed(value, "privkey:"@);
    crate::laws::frames::lemma_names(hex_bytes(d));
    match r {
        Err(KeyError::Hex(e)) => {
            lemma_fault(d, e);
        },
        Ok(_) => {
            lemma_reads_as(d);
            lemma_private(hex_bytes(d));
        },
        _ => {
            lemma_reads_as(d);
        },
    }
    assert(is_trim(value, text@) && is_prefixed(value, "privkey:"@, digits));
}

/// A key file has `privkey:`, the private key in hexadecimal and the end of a line.
pub proof fn law_key_files_are_written(pair: NodeKeyPair, bytes: [u8; 32], r: String)
    requires
        call_ensures(NodeKeyPair::private_bytes, (&pair,), bytes),
        call_ensures(NodeKeyPair::to_file_text, (&pair,), r),
    ensures
        exists|hex: Seq<char>| #[trigger] is_hex(hex, bytes@) && r@ == "privkey:"@ + hex + seq!['\n'],
{
    lemma_hex(bytes@);
    let hex = hex_text(bytes@);
    assert(is_hex(hex, bytes@));
    assert(r@ =~= "privkey:"@ + hex + seq!['\n']);
}

/// A key pair that is written to a file is read back.
pub proof fn law_key_files_are_read_back(
    pair: NodeKeyPair,
    bytes: [u8; 32],
    written: String,
    text: &str,
    r: Result<NodeKeyPair, KeyError>,
)
    requires
        call_ensures(NodeKeyPair::private_bytes, (&pair,), bytes),
        call_ensures(NodeKeyPair::to_file_text, (&pair,), written),
        call_ensures(NodeKeyPair::from_text, (text,), r),
        text@ == written@,
    ensures
        r matches Ok(p) && p.secret() == bytes@,
{
    assert(is_clamped(pair.secret()));
    law_key_file_round_trip(bytes@);
    let d = crate::crypto::private_key_digits(written@);
    if let Err(KeyError::Hex(e)) = r {
        if let HexError::InvalidHexCharacter { c, index } = e {
            assert(crate::text::hex_value(d[index as int]) is Some);
        }
    }
}

} // verus!
