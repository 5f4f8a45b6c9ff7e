//! STUN binding responses for Tailscale's requests.

use vstd::prelude::*;
use vstd::slice::slice_subrange;

use crate::endpoint::{Endpoint, EndpointView, IpAddress};
use crate::wire::{
    be16, be32, from_be16, from_be32, law_be16_round_trip, law_be32_round_trip, read_be16,
    read_be32, same_bytes, write_be16,
};

verus! {

/// The magic cookie of RFC 5389.
pub const COOKIE: [u8; 4] = [0x21, 0x12, 0xa4, 0x42];

/// What the SOFTWARE attribute of a Tailscale node says: `tailnode`.
pub const TAILNODE: [u8; 8] = [0x74, 0x61, 0x69, 0x6c, 0x6e, 0x6f, 0x64, 0x65];

/// The SOFTWARE attribute.
pub const SOFTWARE: u16 = 0x8022;

/// The FINGERPRINT attribute.
pub const FINGERPRINT: u16 = 0x8028;

/// What the FINGERPRINT attribute is masked with.
pub const FINGERPRINT_MASK: u32 = 0x5354_554e;

/// A CRC-32 register after `n` more bits were shifted out of it, by the reversed polynomial.
pub open spec fn crc_shifted(register: u32, n: nat) -> u32
    decreases n,
{
    if n == 0 {
        register
    } else {
        let r = crc_shifted(register, (n - 1) as nat);
        if r & 1 == 1 {
            (r >> 1) ^ 0xedb8_8320
        } else {
            r >> 1
        }
    }
}

/// The CRC-32 register after these bytes: it starts with all bits set.
pub open spec fn crc_register(data: Seq<u8>) -> u32
    decreases data.len(),
{
    if data.len() == 0 {
        0xffff_ffff
    } else {
        crc_shifted(crc_register(data.drop_last()) ^ (data.last() as u32), 8)
    }
}

/// The CRC-32 checksum of a byte string, as in Ethernet and zlib: the register, inverted.
pub open spec fn crc32_of(data: Seq<u8>) -> u32 {
    crc_register(data) ^ 0xffff_ffff
}

/// `crc32fast::hash`: the CRC-32 checksum of the bytes.
#[verifier::external_body]
fn crc32(data: &[u8]) -> (r: u32)
    ensures
        r == crc32_of(data@),
{
    crc32fast::hash(data)
}

/// One attribute of a message: where it stands, its type and its value.
pub struct Attribute {
    pub pos: int,
    pub kind: int,
    pub value: Seq<u8>,
}

/// A value's length with its padding to a multiple of four.
pub open spec fn padded(len: int) -> int {
    (len + 3) / 4 * 4
}

/// The attributes from `pos` on; `None` where a value runs past the end.
pub open spec fn attributes(attrs: Seq<u8>, pos: int) -> Option<Seq<Attribute>>
    decreases attrs.len() + 4 - pos,
{
    if pos < 0 || pos + 4 > attrs.len() {
        Some(Seq::empty())
    } else {
        let kind = from_be16(attrs[pos], attrs[pos + 1]);
        let len = from_be16(attrs[pos + 2], attrs[pos + 3]);
        if pos + 4 + len > attrs.len() {
            None
        } else {
            let value = attrs.subrange(pos + 4, pos + 4 + len);
            match attributes(attrs, pos + 4 + padded(len)) {
                Some(rest) => Some(seq![Attribute { pos, kind, value }] + rest),
                None => None,
            }
        }
    }
}

/// The attribute section of a message, as long as its header says.
pub open spec fn attribute_section(packet: Seq<u8>) -> Seq<u8> {
    packet.subrange(20, 20 + from_be16(packet[2], packet[3]))
}

/// Whether an attribute says that a Tailscale node speaks.
pub open spec fn is_tailnode(a: Attribute) -> bool {
    a.kind == SOFTWARE && a.value == TAILNODE@
}

/// Whether an attribute is a fingerprint that ends a section of `n` bytes.
pub open spec fn is_final_fingerprint(a: Attribute, n: nat) -> bool {
    a.kind == FINGERPRINT && a.value.len() == 4 && a.pos + 8 == n
}

/// Whether a packet is a binding request of a Tailscale node: type, cookie and framing are
/// right, some SOFTWARE attribute is `tailnode`, and the last attribute is a fingerprint whose
/// value fits what stands before it.
pub open spec fn is_request(packet: Seq<u8>) -> bool {
    &&& packet.len() >= 20
    &&& packet[0] == 0 && packet[1] == 1
    &&& packet.subrange(4, 8) == COOKIE@
    &&& packet.len() >= 20 + from_be16(packet[2], packet[3])
    &&& attributes(attribute_section(packet), 0) is Some
    &&& {
        let list = attributes(attribute_section(packet), 0)->0;
        &&& exists|i: int| 0 <= i < list.len() && is_tailnode(#[trigger] list[i])
        &&& is_final_fingerprint(list.last(), attribute_section(packet).len())
        &&& list.last().value == be32(
            crc32_of(packet.subrange(0, 20 + list.last().pos)) ^ FINGERPRINT_MASK,
        )
    }
}

/// What an address is masked with: the cookie, then the transaction ID.
pub open spec fn address_mask(transaction: Seq<u8>) -> Seq<u8> {
    COOKIE@ + transaction
}

/// Octets with the mask applied to each.
pub open spec fn masked(octets: Seq<u8>, mask: Seq<u8>) -> Seq<u8> {
    Seq::new(octets.len(), |i: int| octets[i] ^ mask[i])
}

/// The XOR-MAPPED-ADDRESS attribute for an endpoint.
pub open spec fn mapped_address(source: EndpointView, transaction: Seq<u8>) -> Seq<u8> {
    be16(0x0020) + be16((4 + source.octets.len()) as u16) + seq![
        0u8,
        if source.octets.len() == 4 {
            1u8
        } else {
            2u8
        },
    ] + be16(source.port ^ 0x2112) + masked(source.octets, address_mask(transaction))
}

/// The binding response: success, the cookie, the request's transaction ID and the address that
/// the request came from.
pub open spec fn response(packet: Seq<u8>, source: EndpointView) -> Seq<u8> {
    let transaction = packet.subrange(8, 20);
    seq![1u8, 1u8] + be16((8 + source.octets.len()) as u16) + COOKIE@ + transaction
        + mapped_address(source, transaction)
}

/// Answers a binding request of a Tailscale node with the address that it came from; everything
/// else is ignored.
pub fn respond(packet: &[u8], source: Endpoint) -> (r: Option<Vec<u8>>)
    ensures
        match r {
            Some(out) => is_request(packet@) && out@ == response(packet@, source@),
            None => !is_request(packet@),
        },
{
    if packet.len() < 20 || packet[0] != 0 || packet[1] != 1 || !same_bytes(
        slice_subrange(packet, 4, 8),
        COOKIE.as_slice(),
    ) {
        return None;
    }
    let declared = read_be16(packet[2], packet[3]) as usize;
    if packet.len() < 20 + declared {
        return None;
    }
    let attrs = slice_subrange(packet, 20, 20 + declared);
    let mut pos: usize = 0;
    let mut software = false;
    let mut fingerprint: Option<(usize, u32)> = None;
    let ghost mut done: Seq<Attribute> = Seq::empty();
    proof {
        if let Some(rest) = attributes(attrs@, 0) {
            assert(done + rest =~= rest);
        }
    }
    while pos + 4 <= attrs.len()
        invariant
            attrs@ == attribute_section(packet@),
            attrs.len() <= 0xffff,
            pos <= 0x2_0003,
            attributes(attrs@, 0) == (match attributes(attrs@, pos as int) {
                Some(rest) => Some(done + rest),
                None => None,
            }),
            software == exists|i: int| 0 <= i < done.len() && is_tailnode(#[trigger] done[i]),
            match fingerprint {
                Some((at, got)) => {
                    &&& done.len() > 0
                    &&& is_final_fingerprint(done.last(), attrs@.len())
                    &&& done.last().pos == at
                    &&& at + 8 == attrs.len()
                    &&& got == from_be32(
                        done.last().value[0],
                        done.last().value[1],
                        done.last().value[2],
                        done.last().value[3],
                    )
                    &&& pos == attrs.len()
                },
                None => done.len() > 0 ==> !is_final_fingerprint(done.last(), attrs@.len()),
            },
        decreases attrs.len() + 4 - pos,
    {
        let kind = read_be16(attrs[pos], attrs[pos + 1]);
        let len = read_be16(attrs[pos + 2], attrs[pos + 3]) as usize;
        if pos + 4 + len > attrs.len() {
            return None;
        }
        let value = slice_subrange(attrs, pos + 4, pos + 4 + len);
        let ghost before = done;
        let ghost here = Attribute { pos: pos as int, kind: kind as int, value: value@ };
        proof {
            done = before.push(here);
            if let Some(rest) = attributes(attrs@, pos + 4 + padded(len as int)) {
                assert(before + (seq![here] + rest) =~= done + rest);
            }
            assert forall|i: int| 0 <= i < before.len() implies #[trigger] before[i] == done[i] by {}
            assert(done[before.len() as int] == here);
        }
        if kind == SOFTWARE && same_bytes(value, TAILNODE.as_slice()) {
            software = true;
            proof {
                assert(is_tailnode(done[before.len() as int]));
            }
        }
        if kind == FINGERPRINT && len == 4 && pos + 8 == attrs.len() {
            fingerprint = Some((pos, read_be32(value[0], value[1], value[2], value[3])));
        }
        pos = pos + 4 + (len + 3) / 4 * 4;
    }
    proof {
        assert(done + Seq::empty() =~= done);
    }
    let (at, got) = match fingerprint {
        Some(f) => f,
        None => {
            return None;
        },
    };
    let want = crc32(slice_subrange(packet, 0, 20 + at)) ^ FINGERPRINT_MASK;
    proof {
        law_be32_round_trip(want);
        let v = done.last().value;
        assert(v.len() == 4);
        if got == want {
            lemma_be32_injective(v, want);
        }
    }
    if !software || got != want {
        return None;
    }
    Some(binding_response(slice_subrange(packet, 8, 20), source))
}

/// Four bytes that spell a number are that number's bytes.
proof fn lemma_be32_injective(v: Seq<u8>, x: u32)
    requires
        v.len() == 4,
        from_be32(v[0], v[1], v[2], v[3]) == x,
    ensures
        v == be32(x),
{
    assert(v =~= be32(x));
}

/// The response to a request with this transaction ID from this address.
fn binding_response(transaction: &[u8], source: Endpoint) -> (r: Vec<u8>)
    requires
        transaction@.len() == 12,
    ensures
        r@ == seq![1u8, 1u8] + be16((8 + source@.octets.len()) as u16) + COOKIE@ + transaction@
            + mapped_address(source@, transaction@),
{
    let mut mask: Vec<u8> = Vec::new();
    mask.extend_from_slice(COOKIE.as_slice());
    mask.extend_from_slice(transaction);
    proof {
        assert(mask@ =~= address_mask(transaction@));
    }
    let octets: &[u8] = match &source.ip {
        IpAddress::V4(o) => o.as_slice(),
        IpAddress::V6(o) => o.as_slice(),
    };
    let family: u8 = match source.ip {
        IpAddress::V4(_) => 1,
        IpAddress::V6(_) => 2,
    };
    let n = octets.len();
    let mut out: Vec<u8> = Vec::new();
    out.push(1);
    out.push(1);
    out.extend_from_slice(write_be16((8 + n) as u16).as_slice());
    out.extend_from_slice(COOKIE.as_slice());
    out.extend_from_slice(transaction);
    out.extend_from_slice(write_be16(0x0020).as_slice());
    out.extend_from_slice(write_be16((4 + n) as u16).as_slice());
    out.push(0);
    out.push(family);
    out.extend_from_slice(write_be16(source.port ^ 0x2112).as_slice());
    let ghost head = out@;
    let mut i: usize = 0;
    while i < n
        invariant
            n == octets.len(),
            n <= 16,
            mask@.len() == 16,
            i <= n,
            out@ =~= head + masked(octets@, mask@).take(i as int),
        decreases n - i,
    {
        out.push(octets[i] ^ mask[i]);
        i += 1;
    }
    proof {
        assert(out@ =~= seq![1u8, 1u8] + be16((8 + source@.octets.len()) as u16) + COOKIE@
            + transaction@ + mapped_address(source@, transaction@));
    }
    out
}

/// Where the parts of a response stand.
proof fn lemma_response_parts(packet: Seq<u8>, source: EndpointView)
    requires
        packet.len() >= 20,
        source.octets.len() == 4 || source.octets.len() == 16,
    ensures
        ({
            let r = response(packet, source);
            let n = source.octets.len();
            let t = packet.subrange(8, 20);
            &&& r.len() == 28 + n
            &&& r.subrange(2, 4) == be16((8 + n) as u16)
            &&& r.subrange(4, 8) == COOKIE@
            &&& r.subrange(8, 20) == t
            &&& r.subrange(26, 28) == be16(source.port ^ 0x2112)
            &&& r.subrange(28, 28 + n as int) == masked(source.octets, address_mask(t))
        }),
{
    let r = response(packet, source);
    let n = source.octets.len();
    assert(r.len() == 28 + n);
    assert(r.subrange(2, 4) =~= be16((8 + n) as u16));
    assert(r.subrange(4, 8) =~= COOKIE@);
    assert(r.subrange(8, 20) =~= packet.subrange(8, 20));
    assert(r.subrange(26, 28) =~= be16(source.port ^ 0x2112));
    assert(r.subrange(28, 28 + n as int) =~= masked(
        source.octets,
        address_mask(packet.subrange(8, 20)),
    ));
}

/// Applying a mask twice changes nothing.
proof fn lemma_masked_twice(octets: Seq<u8>, mask: Seq<u8>)
    ensures
        masked(masked(octets, mask), mask) == octets,
{
    assert forall|i: int| 0 <= i < octets.len() implies #[trigger] masked(
        masked(octets, mask),
        mask,
    )[i] == octets[i] by {
        let a = octets[i];
        let b = mask[i];
        assert((a ^ b) ^ b == a) by (bit_vector);
    }
    assert(masked(masked(octets, mask), mask) =~= octets);
}

/// Whoever reads a response finds the request's transaction ID, and the address and port that
/// the request came from once the masks are taken off.
pub proof fn law_response_tells_the_source(packet: Seq<u8>, source: EndpointView)
    requires
        packet.len() >= 20,
        source.octets.len() == 4 || source.octets.len() == 16,
    ensures
        ({
            let r = response(packet, source);
            let n = source.octets.len();
            &&& r.len() == 28 + n
            &&& from_be16(r[2], r[3]) == r.len() - 20
            &&& r.subrange(4, 8) == COOKIE@
            &&& r.subrange(8, 20) == packet.subrange(8, 20)
            &&& from_be16(r[26], r[27]) as u16 ^ 0x2112 == source.port
            &&& masked(r.subrange(28, 28 + n as int), address_mask(r.subrange(8, 20)))
                == source.octets
        }),
{
    let r = response(packet, source);
    let n = source.octets.len();
    let port = source.port;
    lemma_response_parts(packet, source);
    lemma_masked_twice(source.octets, address_mask(packet.subrange(8, 20)));
    law_be16_round_trip((8 + n) as u16);
    law_be16_round_trip(port ^ 0x2112);
    assert(r[2] == r.subrange(2, 4)[0] && r[3] == r.subrange(2, 4)[1]);
    assert(r[26] == r.subrange(26, 28)[0] && r[27] == r.subrange(26, 28)[1]);
    assert((port ^ 0x2112) ^ 0x2112 == port) by (bit_vector);
}

} // verus!
