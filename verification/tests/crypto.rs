use derp_rs::crypto::{KeyError, KeyTextError};
use derp_rs::protocol::ProtocolError;
use derp_rs::text::HexError;
use derp_rs::{Frame, NodeKey, NodeKeyPair};

fn unhex(text: &str) -> Vec<u8> {
    (0..text.len() / 2)
        .map(|i| u8::from_str_radix(&text[2 * i..2 * i + 2], 16).unwrap())
        .collect()
}

fn array(text: &str) -> [u8; 32] {
    unhex(text).try_into().unwrap()
}

const ALICE: &str = "68f208412d8dd5db9d0c6d18512e86f0ec75665ab841372d57b042b27ef89d4c";
const ALICE_PUBLIC: &str = "ac3a70ba35df3c3fae427a7c72021d68f2c1e044040b75f17313c0c8b5d4241d";
const BOB: &str = "b581fb5ae182a16f603f39270d4e3b95bc008310b727a11dd4e784a0044d461b";
const BOB_PUBLIC: &str = "e8980c86e032f1eb2975052e8d65bddd15c3b59641174ec9678a53789d92c754";

#[test]
fn crypto_box_round_trip() {
    let a = NodeKeyPair::generate();
    let b = NodeKeyPair::generate();
    let mut sealed = a.seal_to(b.public(), b"hello").unwrap();
    assert_eq!(b.open_from(a.public(), &sealed).unwrap(), b"hello");
    *sealed.last_mut().unwrap() ^= 1;
    assert!(b.open_from(a.public(), &sealed).is_err());
}

#[test]
fn public_keys_match_known_ones() {
    let alice = NodeKeyPair::from_bytes(array(ALICE)).unwrap();
    let bob = NodeKeyPair::from_bytes(array(BOB)).unwrap();
    assert_eq!(alice.public().to_hex(), ALICE_PUBLIC);
    assert_eq!(bob.public().to_hex(), BOB_PUBLIC);
}

#[test]
fn boxes_match_a_known_one() {
    let alice = NodeKeyPair::from_bytes(array(ALICE)).unwrap();
    let bob = NodeKeyPair::from_bytes(array(BOB)).unwrap();
    let nonce: [u8; 24] =
        unhex("69696ee955b62b73cd62bda875fc73d68219e0036b7a0b37").try_into().unwrap();
    let plain = unhex(
        "be075fc53c81f2d5cf141316ebeb0c7b5228c52a4c62cbd44b66849b64244ffc\
         e5ecbaaf33bd751a1ac728d45e6c61296cdc3c01233561f41db66cce314adb31\
         0e3be8250c46f06dceea3a7fa1348057e2f6556ad6b1318a024a838f21af1fde\
         048977eb48f59ffd4924ca1c60902e52f0a089bc76897040e082f93776384864\
         5e0705",
    );
    let sealed = alice.seal_with_nonce(bob.public(), &nonce, &plain).unwrap();
    assert_eq!(sealed[..24], nonce);
    assert_eq!(
        sealed[24..],
        unhex(
            "c03f27d188ef650cd12936913137bb17ed4c98c2648939e2e1d2e855470a7b8c\
             632cabfd5ab3b3c2d313dc8c9ecf5da173e1f9c318cdef1dced6d2519e695085\
             e6b5c401a2bd5331442986c7076d412625497c4cb2fd94c6f103961033b2c930\
             d7e82e0341f29d3879bd6ab9d881ea3a1f365d634e653c6e171aac7fc1e76934\
             d23be6f04a54010808dbf0f9bd30f63b68d026"
        )
    );
    assert_eq!(bob.open_from(alice.public(), &sealed).unwrap(), plain);
}

#[test]
fn boxes_of_others_do_not_open() {
    let a = NodeKeyPair::generate();
    let b = NodeKeyPair::generate();
    let c = NodeKeyPair::generate();
    let sealed = a.seal_to(b.public(), b"").unwrap();
    assert_eq!(sealed.len(), 40);
    assert_eq!(b.open_from(c.public(), &sealed), Err(KeyError::Crypto));
    assert_eq!(c.open_from(a.public(), &sealed), Err(KeyError::Crypto));
    assert_eq!(b.open_from(a.public(), &sealed[..23]), Err(KeyError::Crypto));
    assert_eq!(b.open_from(a.public(), &sealed).unwrap(), b"");
}

#[test]
fn random_keys_and_nonces_differ() {
    let a = NodeKeyPair::generate();
    let b = NodeKeyPair::generate();
    assert_ne!(a.private_bytes(), b.private_bytes());
    assert_ne!(a.seal_to(b.public(), b"x").unwrap(), a.seal_to(b.public(), b"x").unwrap());
}

#[test]
fn private_keys_are_clamped() {
    let pair = NodeKeyPair::from_bytes([0xff; 32]).unwrap();
    let raw = pair.private_bytes();
    assert_eq!(raw[0], 0xf8);
    assert_eq!(raw[31], 0x7f);
    assert_eq!(raw[1], 0xff);
    assert_eq!(NodeKeyPair::from_bytes(raw).unwrap().private_bytes(), raw);
    assert!(matches!(NodeKeyPair::from_bytes([0; 32]), Err(KeyError::Invalid)));
    assert_eq!(NodeKeyPair::from_random([0; 32]).private_bytes()[31], 64);
}

#[test]
fn node_keys() {
    assert_eq!(NodeKey::new([0; 32]), Err(ProtocolError::InvalidKey));
    assert_eq!(NodeKey::from_slice(&[1; 31]), Err(ProtocolError::InvalidKey));
    assert_eq!(NodeKey::from_slice(&[0; 32]), Err(ProtocolError::InvalidKey));
    let key = NodeKey::from_slice(&[0xab; 32]).unwrap();
    assert_eq!(key.as_bytes(), &[0xab; 32]);
    assert_eq!(key.to_hex(), "ab".repeat(32));
    assert_eq!(key.short(), "abababab");
    assert_eq!(key.to_text(), format!("nodekey:{}", "ab".repeat(32)));
}

#[test]
fn node_key_texts() {
    let key = NodeKey::new(array(BOB_PUBLIC)).unwrap();
    assert_eq!(NodeKey::from_text(&key.to_text()), Ok(key));
    assert_eq!(NodeKey::from_text(&BOB_PUBLIC.to_uppercase()), Ok(key));
    assert_eq!(
        NodeKey::from_text("nodekey:abc"),
        Err(KeyTextError::Hex(HexError::OddLength))
    );
    assert_eq!(
        NodeKey::from_text("0x"),
        Err(KeyTextError::Hex(HexError::InvalidHexCharacter { c: 'x', index: 1 }))
    );
    assert_eq!(NodeKey::from_text("abab"), Err(KeyTextError::Key));
    assert_eq!(NodeKey::from_text(&"00".repeat(32)), Err(KeyTextError::Key));
}

#[test]
fn key_files() {
    let pair = NodeKeyPair::generate();
    let text = pair.to_file_text();
    assert!(text.starts_with("privkey:") && text.ends_with('\n') && text.len() == 73);
    assert_eq!(NodeKeyPair::from_text(&text).unwrap().private_bytes(), pair.private_bytes());
    let bare = format!("\t {}\r\n", &text[8..72]);
    assert_eq!(NodeKeyPair::from_text(&bare).unwrap().private_bytes(), pair.private_bytes());
    let error = |text: &str| NodeKeyPair::from_text(text).err();
    assert_eq!(error("privkey:ab"), Some(KeyError::Invalid));
    assert_eq!(error(&"0".repeat(64)), Some(KeyError::Invalid));
    assert_eq!(error("a"), Some(KeyError::Hex(HexError::OddLength)));
    assert_eq!(
        error("nodekey:00"),
        Some(KeyError::Hex(HexError::InvalidHexCharacter { c: 'n', index: 0 }))
    );
}

#[test]
fn keys_are_shown_short_in_logs() {
    let mut raw = [0u8; 32];
    raw[0] = 0xab;
    raw[3] = 1;
    raw[31] = 0xff;
    let key = NodeKey::new(raw).unwrap();
    assert_eq!(format!("{key:?}"), "nodekey:ab000001");
    assert_eq!(key.to_short_text(), "nodekey:ab000001");
    assert_eq!(format!("{:?}", Frame::ClosePeer(key)), "ClosePeer(nodekey:ab000001)");
}
