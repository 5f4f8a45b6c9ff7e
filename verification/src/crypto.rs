//! Node identities: public keys and the key pairs that prove them.

use crypto_box::aead::Aead;
use rand_core::RngCore;
use vstd::prelude::*;
use vstd::slice::slice_subrange;
use vstd::string::*;
use vstd::utf8::encode_utf8;

use crate::protocol::{ProtocolError, KEY_LEN, NONCE_LEN};
use crate::text::{
    all_hex, hex_bytes, hex_decode, hex_encode, hex_fault, hex_text, law_hex_round_trip,
    starts_with, strip_prefix, trim, trimmed, white_space, HexError,
};
use crate::wire::{all_zero, array24, array32, is_all_zero};

verus! {

/// The public key that names a node. It is never all zero.
#[derive(Clone, Copy, Eq, Hash, Ord, PartialEq, PartialOrd)]
pub struct NodeKey([u8; KEY_LEN]);

/// Whether thirty-two bytes can name a node.
pub open spec fn valid_key(bytes: Seq<u8>) -> bool {
    bytes.len() == KEY_LEN && !all_zero(bytes)
}

/// A key as logs show it: `nodekey:` and its first four bytes in hexadecimal.
pub open spec fn short_text(key: Seq<u8>) -> Seq<char> {
    "nodekey:"@ + hex_text(key.subrange(0, 4))
}

impl View for NodeKey {
    type V = Seq<u8>;

    closed spec fn view(&self) -> Seq<u8> {
        self.0@
    }
}

impl NodeKey {
    #[verifier::type_invariant]
    spec fn not_zero(self) -> bool {
        !all_zero(self.0@)
    }

    /// Takes the key's bytes; the all-zero key is refused.
    pub fn new(bytes: [u8; KEY_LEN]) -> (r: Result<NodeKey, ProtocolError>)
        ensures
            match r {
                Ok(key) => valid_key(bytes@) && key@ == bytes@,
                Err(e) => all_zero(bytes@) && e == ProtocolError::InvalidKey,
            },
    {
        if is_all_zero(bytes.as_slice()) {
            Err(ProtocolError::InvalidKey)
        } else {
            Ok(NodeKey(bytes))
        }
    }

    /// Takes the key from a slice, which must have the key's length and not be all zero.
    pub fn from_slice(value: &[u8]) -> (r: Result<NodeKey, ProtocolError>)
        ensures
            match r {
                Ok(key) => valid_key(value@) && key@ == value@,
                Err(e) => !valid_key(value@) && e == ProtocolError::InvalidKey,
            },
    {
        if value.len() != KEY_LEN {
            return Err(ProtocolError::InvalidKey);
        }
        NodeKey::new(array32(value))
    }

    /// The key's bytes, which are never all zero.
    pub fn as_bytes(&self) -> (r: &[u8; KEY_LEN])
        ensures
            r@ == self@,
            valid_key(self@),
    {
        proof {
            use_type_invariant(self);
        }
        &self.0
    }

    /// The key in hexadecimal.
    pub fn to_hex(self) -> (r: String)
        ensures
            r@ == hex_text(self@),
    {
        hex_encode(self.0.as_slice())
    }

    /// The key's first four bytes in hexadecimal, for logs.
    pub fn short(self) -> (r: String)
        ensures
            r@ == hex_text(self@.subrange(0, 4)),
    {
        hex_encode(slice_subrange(self.0.as_slice(), 0, 4))
    }

    /// The key as it is shown: `nodekey:` and the hexadecimal digits.
    pub fn to_text(self) -> (r: String)
        ensures
            r@ == "nodekey:"@ + hex_text(self@),
    {
        let mut out = String::from_str("nodekey:");
        out.append(self.to_hex().as_str());
        out
    }

    /// The key as logs show it: `nodekey:` and its first four bytes in hexadecimal.
    pub fn to_short_text(self) -> (r: String)
        ensures
            r@ == short_text(self@),
    {
        let mut out = String::from_str("nodekey:");
        out.append(self.short().as_str());
        out
    }

    /// Reads a key in hexadecimal, with or without the `nodekey:` that shows it.
    pub fn from_text(text: &str) -> (r: Result<NodeKey, KeyTextError>)
        ensures
            ({
                let digits = encode_utf8(without_prefix(text@, "nodekey:"@));
                match r {
                    Ok(key) => digits.len() % 2 == 0 && all_hex(digits) && valid_key(
                        hex_bytes(digits),
                    ) && key@ == hex_bytes(digits),
                    Err(KeyTextError::Hex(e)) => hex_fault(digits, e),
                    Err(KeyTextError::Key) => digits.len() % 2 == 0 && all_hex(digits)
                        && !valid_key(hex_bytes(digits)),
                }
            }),
    {
        let digits = match strip_prefix(text, "nodekey:") {
            Some(rest) => rest,
            None => text,
        };
        match hex_decode(digits) {
            Ok(raw) => match NodeKey::from_slice(raw.as_slice()) {
                Ok(key) => Ok(key),
                Err(_) => Err(KeyTextError::Key),
            },
            Err(e) => Err(KeyTextError::Hex(e)),
        }
    }
}

/// A key has thirty-two bytes.
pub proof fn lemma_key_len(key: NodeKey)
    ensures
        key@.len() == 32,
{
}

/// The formatter of std.
#[verifier::external_type_specification]
#[verifier::external_body]
pub struct ExFormatter<'a>(std::fmt::Formatter<'a>);

/// The error of std's formatters.
#[verifier::external_type_specification]
#[verifier::external_body]
pub struct ExFormatError(std::fmt::Error);

/// The texts that were handed to a formatter, oldest first, each with whether it was written.
pub uninterp spec fn written(f: std::fmt::Formatter<'_>) -> Seq<(Seq<char>, bool)>;

/// `Formatter::write_str`: writes a text to what is behind the formatter, and tells whether that
/// went well. Whether it does is decided there, so nothing is claimed of it.
pub assume_specification<'a>[ std::fmt::Formatter::<'a>::write_str ](
    f: &mut std::fmt::Formatter<'a>,
    data: &str,
) -> (r: Result<(), std::fmt::Error>)
    ensures
        written(*final(f)) == written(*old(f)).push((data@, r is Ok)),
;

impl std::fmt::Debug for NodeKey {
    /// Writes the key as logs show it, and tells whether that went well.
    fn fmt(&self, f: &mut std::fmt::Formatter<'_>) -> (r: Result<(), std::fmt::Error>)
        ensures
            written(*final(f)) == written(*old(f)).push((short_text(self@), r is Ok)),
    {
        let text = self.to_short_text();
        f.write_str(text.as_str())
    }
}

/// Why a text is no node key.
#[derive(Clone, Copy, Debug, PartialEq, Eq)]
pub enum KeyTextError {
    /// It is not hexadecimal.
    Hex(HexError),
    /// It does not spell the bytes of a key.
    Key,
}

/// The text without the prefix; all of it where it does not begin with it.
pub open spec fn without_prefix(s: Seq<char>, prefix: Seq<char>) -> Seq<char> {
    if starts_with(s, prefix) {
        s.subrange(prefix.len() as int, s.len() as int)
    } else {
        s
    }
}

/// What goes wrong with a key pair.
#[derive(Clone, Copy, Debug, PartialEq, Eq)]
pub enum KeyError {
    /// The private key is all zero or of the wrong length.
    Invalid,
    /// A box is too short or was not sealed by its sender for its receiver.
    Crypto,
    /// The private key's text is not hexadecimal.
    Hex(HexError),
}

/// The private key that stands for thirty-two bytes: the low three bits cleared, the high bit
/// cleared and the one below it set.
pub open spec fn clamped(raw: Seq<u8>) -> Seq<u8> {
    raw.update(0, raw[0] & 248).update(31, (raw[31] & 127) | 64)
}

/// Whether the bytes are a private key in that form.
pub open spec fn is_clamped(raw: Seq<u8>) -> bool {
    &&& raw.len() == KEY_LEN
    &&& raw[0] & 248 == raw[0]
    &&& (raw[31] & 127) | 64 == raw[31]
}

proof fn lemma_clamp_bits(a: u8, b: u8)
    ensures
        (a & 248) & 248 == a & 248,
        (((b & 127) | 64) & 127) | 64 == (b & 127) | 64,
        (b & 127) | 64 != 0,
{
    assert((a & 248) & 248 == a & 248) by (bit_vector);
    assert((((b & 127) | 64) & 127) | 64 == (b & 127) | 64) by (bit_vector);
    assert((b & 127) | 64 != 0) by (bit_vector);
}

/// A clamped key is in the form of a private key, is not all zero, and clamping it again changes
/// nothing.
pub proof fn law_clamping_settles(raw: Seq<u8>)
    requires
        raw.len() == KEY_LEN,
    ensures
        is_clamped(clamped(raw)),
        valid_key(clamped(raw)),
        clamped(clamped(raw)) == clamped(raw),
{
    lemma_clamp_bits(raw[0], raw[31]);
    assert(clamped(raw)[31] != 0);
    assert(clamped(clamped(raw)) =~= clamped(raw));
}

fn clamp(raw: [u8; KEY_LEN]) -> (r: [u8; KEY_LEN])
    ensures
        r@ == clamped(raw@),
{
    let mut out = raw;
    out[0] = raw[0] & 248;
    out[31] = (raw[31] & 127) | 64;
    proof {
        assert(out@ =~= clamped(raw@));
    }
    out
}

/// The X25519 public key that belongs to a secret key.
pub uninterp spec fn box_public(secret: Seq<u8>) -> Seq<u8>;

/// The NaCl box of a plaintext, between a secret key and a peer's public key, under a nonce.
pub uninterp spec fn box_sealed(
    secret: Seq<u8>,
    peer: Seq<u8>,
    nonce: Seq<u8>,
    plaintext: Seq<u8>,
) -> Seq<u8>;

/// What a NaCl box holds, between a secret key and a peer's public key, under a nonce; `None`
/// where it does not authenticate.
pub uninterp spec fn box_opened(
    secret: Seq<u8>,
    peer: Seq<u8>,
    nonce: Seq<u8>,
    ciphertext: Seq<u8>,
) -> Option<Seq<u8>>;

/// `crypto_box::SecretKey::public_key`: the public key is a function of the secret one. It is
/// never all zero: the secret scalar is clamped, so it is no multiple of the order of the base
/// point, and only the two points of order one and two are written as zero.
#[verifier::external_body]
fn public_of(secret: &[u8; KEY_LEN]) -> (r: [u8; KEY_LEN])
    ensures
        r@ == box_public(secret@),
        !all_zero(r@),
{
    crypto_box::SecretKey::from(*secret).public_key().to_bytes()
}

/// `crypto_box::SalsaBox::encrypt`: a box is a function of both keys, the nonce and the plaintext.
/// Without associated data it always succeeds; it puts a sixteen-byte tag in front. Whoever holds
/// a secret key to the peer's public key opens it with the sender's public key: both sides
/// agree on one key.
#[verifier::external_body]
fn seal_box(
    secret: &[u8; KEY_LEN],
    peer: &[u8; KEY_LEN],
    nonce: &[u8; NONCE_LEN],
    plaintext: &[u8],
) -> (r: Result<Vec<u8>, ()>)
    ensures
        r is Ok,
        r->Ok_0@ == box_sealed(secret@, peer@, nonce@, plaintext@),
        r->Ok_0@.len() == plaintext@.len() + 16,
        forall|other: Seq<u8>|
            other.len() == KEY_LEN && #[trigger] box_public(other) == peer@ ==> box_opened(
                other,
                box_public(secret@),
                nonce@,
                r->Ok_0@,
            ) == Some(plaintext@),
{
    let public = crypto_box::PublicKey::from(*peer);
    let secret = crypto_box::SecretKey::from(*secret);
    crypto_box::SalsaBox::new(&public, &secret)
        .encrypt(crypto_box::Nonce::from_slice(nonce), plaintext)
        .map_err(|_| ())
}

/// `crypto_box::SalsaBox::decrypt`: what a box holds is a function of both keys, the nonce and
/// the box. That a box does not open once a byte of it was changed is not claimed: it rests on the
/// strength of the cipher, and where the authenticator's multiplier comes out as zero it does open.
#[verifier::external_body]
fn open_box(
    secret: &[u8; KEY_LEN],
    peer: &[u8; KEY_LEN],
    nonce: &[u8],
    ciphertext: &[u8],
) -> (r: Result<Vec<u8>, ()>)
    requires
        nonce@.len() == NONCE_LEN,
    ensures
        match r {
            Ok(p) => box_opened(secret@, peer@, nonce@, ciphertext@) == Some(p@),
            Err(()) => box_opened(secret@, peer@, nonce@, ciphertext@) is None,
        },
{
    let public = crypto_box::PublicKey::from(*peer);
    let secret = crypto_box::SecretKey::from(*secret);
    crypto_box::SalsaBox::new(&public, &secret)
        .decrypt(crypto_box::Nonce::from_slice(nonce), ciphertext)
        .map_err(|_| ())
}

/// `rand_core::OsRng::fill_bytes`: random bytes of the operating system over the whole buffer. It
/// panics where the system has none to give, which no argument can rule out. Of the bytes nothing
/// is claimed.
#[verifier::external_body]
fn fill_random(buffer: &mut Vec<u8>)
    ensures
        final(buffer)@.len() == old(buffer)@.len(),
{
    rand_core::OsRng.fill_bytes(buffer)
}

/// What a sealed message holds for the owner of `secret` when it comes from `peer`: the nonce
/// stands in front of the box.
pub open spec fn opened(secret: Seq<u8>, peer: Seq<u8>, sealed: Seq<u8>) -> Option<Seq<u8>> {
    if sealed.len() < NONCE_LEN {
        None
    } else {
        box_opened(
            secret,
            peer,
            sealed.subrange(0, NONCE_LEN as int),
            sealed.subrange(NONCE_LEN as int, sealed.len() as int),
        )
    }
}

/// The private key that a key file's text spells, or what is wrong with it: white space around
/// it and a `privkey:` in front are left out.
pub open spec fn private_key_digits(text: Seq<char>) -> Seq<u8> {
    encode_utf8(without_prefix(trimmed(text), "privkey:"@))
}

/// The text of a key file.
pub open spec fn private_key_text(secret: Seq<u8>) -> Seq<char> {
    ("privkey:"@ + hex_text(secret)).push('\n')
}

/// A node's secret key, always in clamped form.
#[derive(Clone, Copy)]
pub struct NodeKeyPair {
    secret: [u8; KEY_LEN],
}

impl NodeKeyPair {
    #[verifier::type_invariant]
    spec fn clamped_secret(self) -> bool {
        is_clamped(self.secret@)
    }

    /// The secret key's bytes.
    pub closed spec fn secret(self) -> Seq<u8> {
        self.secret@
    }

    /// Makes a key pair from fresh random bytes.
    pub fn generate() -> (r: NodeKeyPair)
        ensures
            is_clamped(r.secret()),
    {
        let mut raw: Vec<u8> = vec![0; KEY_LEN];
        fill_random(&mut raw);
        NodeKeyPair::from_random(array32(raw.as_slice()))
    }

    /// The key pair that thirty-two random bytes stand for.
    pub fn from_random(raw: [u8; KEY_LEN]) -> (r: NodeKeyPair)
        ensures
            r.secret() == clamped(raw@),
            is_clamped(r.secret()),
    {
        proof {
            law_clamping_settles(raw@);
        }
        NodeKeyPair { secret: clamp(raw) }
    }

    /// Takes a private key's bytes and clamps them; the all-zero key is refused.
    pub fn from_bytes(raw: [u8; KEY_LEN]) -> (r: Result<NodeKeyPair, KeyError>)
        ensures
            match r {
                Ok(pair) => !all_zero(raw@) && pair.secret() == clamped(raw@),
                Err(e) => all_zero(raw@) && e == KeyError::Invalid,
            },
    {
        if is_all_zero(raw.as_slice()) {
            return Err(KeyError::Invalid);
        }
        Ok(NodeKeyPair::from_random(raw))
    }

    /// The secret key's bytes, which are in clamped form.
    pub fn private_bytes(&self) -> (r: [u8; KEY_LEN])
        ensures
            r@ == self.secret(),
            is_clamped(self.secret()),
    {
        proof {
            use_type_invariant(self);
        }
        self.secret
    }

    /// The public key, by which others know the node.
    pub fn public(&self) -> (r: NodeKey)
        ensures
            r@ == box_public(self.secret()),
            valid_key(r@),
    {
        NodeKey(public_of(&self.secret))
    }

    /// Seals a message to a peer under a fresh random nonce, which goes in front of the box.
    /// Whoever holds the secret key to the peer's public key opens it as this node's message.
    pub fn seal_to(&self, peer: NodeKey, plaintext: &[u8]) -> (r: Result<Vec<u8>, KeyError>)
        ensures
            r matches Ok(out) && {
                &&& out@.len() == NONCE_LEN + 16 + plaintext@.len()
                &&& out@.subrange(NONCE_LEN as int, out@.len() as int) == box_sealed(
                    self.secret(),
                    peer@,
                    out@.subrange(0, NONCE_LEN as int),
                    plaintext@,
                )
                &&& forall|other: Seq<u8>|
                    other.len() == KEY_LEN && #[trigger] box_public(other) == peer@ ==> opened(
                        other,
                        box_public(self.secret()),
                        out@,
                    ) == Some(plaintext@)
            },
    {
        let mut nonce: Vec<u8> = vec![0; NONCE_LEN];
        fill_random(&mut nonce);
        self.seal_with_nonce(peer, &array24(nonce.as_slice()), plaintext)
    }

    /// Seals a message to a peer under the given nonce, which goes in front of the box.
    pub fn seal_with_nonce(
        &self,
        peer: NodeKey,
        nonce: &[u8; NONCE_LEN],
        plaintext: &[u8],
    ) -> (r: Result<Vec<u8>, KeyError>)
        ensures
            r matches Ok(out) && {
                &&& out@ == nonce@ + box_sealed(self.secret(), peer@, nonce@, plaintext@)
                &&& out@.len() == NONCE_LEN + 16 + plaintext@.len()
                &&& out@.subrange(0, NONCE_LEN as int) == nonce@
                &&& out@.subrange(NONCE_LEN as int, out@.len() as int) == box_sealed(
                    self.secret(),
                    peer@,
                    nonce@,
                    plaintext@,
                )
                &&& forall|other: Seq<u8>|
                    other.len() == KEY_LEN && #[trigger] box_public(other) == peer@ ==> opened(
                        other,
                        box_public(self.secret()),
                        out@,
                    ) == Some(plaintext@)
            },
    {
        match seal_box(&self.secret, peer.as_bytes(), nonce, plaintext) {
            Ok(encrypted) => {
                let mut out: Vec<u8> = Vec::new();
                out.extend_from_slice(nonce.as_slice());
                out.extend_from_slice(encrypted.as_slice());
                proof {
                    assert(out@ =~= nonce@ + encrypted@);
                    assert(out@.subrange(0, NONCE_LEN as int) =~= nonce@);
                    assert(out@.subrange(NONCE_LEN as int, out@.len() as int) =~= encrypted@);
                }
                Ok(out)
            },
            Err(()) => Err(KeyError::Crypto),
        }
    }

    /// Opens a message that a peer sealed to this node.
    pub fn open_from(&self, peer: NodeKey, sealed: &[u8]) -> (r: Result<Vec<u8>, KeyError>)
        ensures
            match r {
                Ok(plaintext) => opened(self.secret(), peer@, sealed@) == Some(plaintext@),
                Err(e) => opened(self.secret(), peer@, sealed@) is None && e == KeyError::Crypto,
            },
    {
        if sealed.len() < NONCE_LEN {
            return Err(KeyError::Crypto);
        }
        let (nonce, ciphertext) = sealed.split_at(NONCE_LEN);
        match open_box(&self.secret, peer.as_bytes(), nonce, ciphertext) {
            Ok(plaintext) => Ok(plaintext),
            Err(()) => Err(KeyError::Crypto),
        }
    }

    /// Reads the text of a key file: the private key in hexadecimal, with or without a `privkey:`
    /// in front, white space around it left out.
    pub fn from_text(text: &str) -> (r: Result<NodeKeyPair, KeyError>)
        ensures
            ({
                let digits = private_key_digits(text@);
                match r {
                    Ok(pair) => digits.len() == 2 * KEY_LEN && all_hex(digits) && !all_zero(
                        hex_bytes(digits),
                    ) && pair.secret() == clamped(hex_bytes(digits)),
                    Err(KeyError::Hex(e)) => hex_fault(digits, e),
                    Err(KeyError::Invalid) => digits.len() % 2 == 0 && all_hex(digits) && (
                    digits.len() != 2 * KEY_LEN || all_zero(hex_bytes(digits))),
                    Err(KeyError::Crypto) => false,
                }
            }),
    {
        let value = trim(text);
        let value = match strip_prefix(value, "privkey:") {
            Some(rest) => rest,
            None => value,
        };
        let raw = match hex_decode(value) {
            Ok(raw) => raw,
            Err(e) => {
                return Err(KeyError::Hex(e));
            },
        };
        if raw.len() != KEY_LEN {
            return Err(KeyError::Invalid);
        }
        NodeKeyPair::from_bytes(array32(raw.as_slice()))
    }

    /// The text of a key file for this key pair.
    pub fn to_file_text(&self) -> (r: String)
        ensures
            r@ == private_key_text(self.secret()),
    {
        let mut out = String::from_str("privkey:");
        out.append(hex_encode(self.secret.as_slice()).as_str());
        out.push('\n');
        out
    }
}

/// The text of a key file reads back as the key that was written.
pub proof fn law_key_file_round_trip(secret: Seq<u8>)
    requires
        is_clamped(secret),
    ensures
        private_key_digits(private_key_text(secret)).len() == 2 * KEY_LEN,
        all_hex(private_key_digits(private_key_text(secret))),
        !all_zero(hex_bytes(private_key_digits(private_key_text(secret)))),
        clamped(hex_bytes(private_key_digits(private_key_text(secret)))) == secret,
{
    reveal_strlit("privkey:");
    let h = hex_text(secret);
    let body = "privkey:"@ + h;
    let text = private_key_text(secret);
    assert(body.last() == h.last());
    assert(!white_space(h.last()));
    assert(text.first() == 'p');
    assert(text.drop_last() =~= body);
    assert(body.first() == 'p');
    reveal_with_fuel(trimmed, 3);
    assert(trimmed(text) == body);
    assert(body.subrange(0, 8) =~= "privkey:"@);
    assert(body.subrange(8, body.len() as int) =~= h);
    law_hex_round_trip(secret);
    lemma_clamp_bits(secret[0], secret[31]);
    assert(clamped(secret) =~= secret);
    assert(secret[31] != 0);
}

/// The text that shows a node key reads back as the key.
pub proof fn law_node_key_text_round_trip(key: Seq<u8>)
    requires
        valid_key(key),
    ensures
        ({
            let digits = encode_utf8(without_prefix("nodekey:"@ + hex_text(key), "nodekey:"@));
            digits.len() % 2 == 0 && all_hex(digits) && hex_bytes(digits) == key
        }),
{
    let shown = "nodekey:"@ + hex_text(key);
    assert(shown.subrange(0, "nodekey:"@.len() as int) =~= "nodekey:"@);
    assert(shown.subrange("nodekey:"@.len() as int, shown.len() as int) =~= hex_text(key));
    law_hex_round_trip(key);
}

} // verus!
