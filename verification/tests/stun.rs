use derp_rs::endpoint::{Endpoint, IpAddress};
use derp_rs::stun::respond;

fn request(tx: &[u8; 12]) -> Vec<u8> {
    let mut p = vec![0, 1, 0, 20, 0x21, 0x12, 0xa4, 0x42];
    p.extend_from_slice(tx);
    p.extend_from_slice(&[0x80, 0x22, 0, 8]);
    p.extend_from_slice(b"tailnode");
    let fp = crc32fast::hash(&p) ^ 0x5354554e;
    p.extend_from_slice(&[0x80, 0x28, 0, 4]);
    p.extend_from_slice(&fp.to_be_bytes());
    p
}

fn v4(a: u8, b: u8, c: u8, d: u8, port: u16) -> Endpoint {
    Endpoint { ip: IpAddress::V4([a, b, c, d]), port }
}

#[test]
fn rejects_non_tailscale() {
    assert!(respond(&[0; 20], v4(127, 0, 0, 1, 1)).is_none());
}

#[test]
fn responds_to_official_vector() {
    let tx = *b"hello world!";
    let mut p = vec![0, 1, 0, 20, 0x21, 0x12, 0xa4, 0x42];
    p.extend_from_slice(&tx);
    p.extend_from_slice(&[0x80, 0x22, 0, 8]);
    p.extend_from_slice(b"tailnode");
    let fp = crc32fast::hash(&p) ^ 0x5354554e;
    p.extend_from_slice(&[0x80, 0x28, 0, 4]);
    p.extend_from_slice(&fp.to_be_bytes());
    let r = respond(&p, v4(192, 0, 2, 1, 1234)).unwrap();
    assert_eq!(&r[..2], &[1, 1]);
    assert_eq!(&r[8..20], &tx);
}

#[test]
fn exact_ipv4_response() {
    let r = respond(&request(b"hello world!"), v4(192, 0, 2, 1, 1234)).unwrap();
    let mut want = vec![1, 1, 0, 12, 0x21, 0x12, 0xa4, 0x42];
    want.extend_from_slice(b"hello world!");
    want.extend_from_slice(&[0, 0x20, 0, 8, 0, 1]);
    want.extend_from_slice(&(1234u16 ^ 0x2112).to_be_bytes());
    want.extend_from_slice(&[192 ^ 0x21, 0x12, 2 ^ 0xa4, 1 ^ 0x42]);
    assert_eq!(r, want);
}

#[test]
fn ipv6_is_masked_with_the_transaction() {
    let octets: [u8; 16] = [0x20, 1, 0xd, 0xb8, 0, 0, 0, 0, 0, 0, 0, 0, 0, 0, 0, 7];
    let source = Endpoint { ip: IpAddress::V6(octets), port: 9 };
    let r = respond(&request(b"hello world!"), source).unwrap();
    assert_eq!(r.len(), 44);
    assert_eq!(&r[2..4], &[0, 24]);
    assert_eq!(&r[20..26], &[0, 0x20, 0, 20, 0, 2]);
    let mask: Vec<u8> = r[4..20].to_vec();
    let shown: Vec<u8> = r[28..].iter().zip(mask).map(|(a, b)| a ^ b).collect();
    assert_eq!(shown, octets);
    assert_eq!(u16::from_be_bytes([r[26], r[27]]) ^ 0x2112, 9);
}

#[test]
fn malformed_requests_are_ignored() {
    let good = request(b"hello world!");
    let source = v4(1, 2, 3, 4, 5);
    assert!(respond(&good, source).is_some());
    assert!(respond(&good[..good.len() - 1], source).is_none());
    for at in [0, 1, 4, 7, 20, 24, 31, 32, 36, 39] {
        let mut bad = good.clone();
        bad[at] ^= 1;
        assert!(respond(&bad, source).is_none(), "{at}");
    }
    let mut trailing = good.clone();
    trailing.push(0);
    assert!(respond(&trailing, source).is_some());
}

#[test]
fn the_fingerprint_must_come_last() {
    let mut p = vec![0, 1, 0, 20, 0x21, 0x12, 0xa4, 0x42];
    p.extend_from_slice(b"hello world!");
    let fp = crc32fast::hash(&p) ^ 0x5354554e;
    p.extend_from_slice(&[0x80, 0x28, 0, 4]);
    p.extend_from_slice(&fp.to_be_bytes());
    p.extend_from_slice(&[0x80, 0x22, 0, 8]);
    p.extend_from_slice(b"tailnode");
    assert!(respond(&p, v4(1, 2, 3, 4, 5)).is_none());
}

#[test]
fn padded_attributes_are_skipped() {
    let mut p = vec![0, 1, 0, 28, 0x21, 0x12, 0xa4, 0x42];
    p.extend_from_slice(b"hello world!");
    p.extend_from_slice(&[0x12, 0x34, 0, 1, 9, 0, 0, 0]);
    p.extend_from_slice(&[0x80, 0x22, 0, 8]);
    p.extend_from_slice(b"tailnode");
    let fp = crc32fast::hash(&p) ^ 0x5354554e;
    p.extend_from_slice(&[0x80, 0x28, 0, 4]);
    p.extend_from_slice(&fp.to_be_bytes());
    assert!(respond(&p, v4(1, 2, 3, 4, 5)).is_some());
}

#[test]
fn fingerprints_are_checksums() {
    let mut p = request(b"hello world!");
    assert_eq!(&p[p.len() - 4..], &[0x03, 0x3c, 0xa4, 0x8c]);
    assert!(respond(&p, v4(192, 0, 2, 1, 1234)).is_some());
    let last = p.len() - 1;
    p[last] ^= 1;
    assert!(respond(&p, v4(192, 0, 2, 1, 1234)).is_none());
}
