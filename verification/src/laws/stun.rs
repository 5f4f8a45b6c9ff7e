//! Which packets are answered, and with which bytes.

use vstd::prelude::*;

use crate::endpoint::{Endpoint, IpAddress};
use crate::laws::plain::{lemma_number, number, part};
use crate::stun::{
    attribute_section, attributes, crc32_of, padded, respond, response, Attribute, COOKIE, TAILNODE,
};
use crate::wire::{be32, law_be32_round_trip};

verus! {

/// An attribute in a section: where it begins, its type and its value.
pub struct Laid {
    pub at: int,
    pub kind: nat,
    pub value: Seq<u8>,
}

/// The next place whose number four divides.
pub open spec fn next_word(at: int) -> int {
    if at % 4 == 0 {
        at
    } else {
        at + 4 - at % 4
    }
}

/// Whether the attributes are those that a section holds from some place on: each is two bytes of
/// type, two bytes of length and the value, the next one begins at a multiple of four, and less
/// than such a head is left behind the last.
pub open spec fn holds(section: Seq<u8>, list: Seq<Laid>, at: int) -> bool
    decreases list.len(),
{
    if list.len() == 0 {
        at + 4 > section.len()
    } else {
        let a = list[0];
        let end = at + 4 + a.value.len();
        &&& a.at == at
        &&& end <= section.len()
        &&& number(part(section, at, at + 2)) == a.kind
        &&& number(part(section, at + 2, at + 4)) == a.value.len()
        &&& part(section, at + 4, end) == a.value
        &&& holds(section, list.drop_first(), next_word(end))
    }
}

/// The bytes behind a message's head of twenty, as many as the head says.
pub open spec fn section_of(packet: Seq<u8>) -> Seq<u8> {
    part(packet, 20, 20 + number(part(packet, 2, 4)) as int)
}

/// Whether a packet has a binding request's head: the type, the cookie, and a length that is there.
pub open spec fn has_head(packet: Seq<u8>) -> bool {
    &&& packet.len() >= 20
    &&& packet[0] == 0 && packet[1] == 1
    &&& packet[4] == 0x21 && packet[5] == 0x12 && packet[6] == 0xa4 && packet[7] == 0x42
    &&& packet.len() >= 20 + number(part(packet, 2, 4))
}

/// Whether an attribute is SOFTWARE and says `tailnode`.
pub open spec fn says_tailnode(a: Laid) -> bool {
    a.kind == 0x8022 && a.value == seq![0x74u8, 0x61, 0x69, 0x6c, 0x6e, 0x6f, 0x64, 0x65]
}

/// Whether an attribute is FINGERPRINT, ends the packet's section, and holds the checksum of all
/// that stands before it, masked.
pub open spec fn seals(a: Laid, packet: Seq<u8>) -> bool {
    &&& a.kind == 0x8028
    &&& a.value.len() == 4
    &&& a.at + 8 == section_of(packet).len()
    &&& number(a.value) == crc32_of(part(packet, 0, 20 + a.at)) ^ 0x5354_554e
}

/// The attributes that are read are those that the section holds.
proof fn lemma_held(section: Seq<u8>, list: Seq<Laid>, at: int)
    requires
        holds(section, list, at),
        at >= 0,
        at % 4 == 0,
    ensures
        attributes(section, at) is Some,
        attributes(section, at)->0.len() == list.len(),
        forall|i: int|
            0 <= i < list.len() ==> {
                let a = #[trigger] attributes(section, at)->0[i];
                a.pos == list[i].at && a.kind == list[i].kind && a.value == list[i].value
            },
    decreases list.len(),
{
    if list.len() > 0 {
        let a = list[0];
        let end = at + 4 + a.value.len();
        lemma_number(part(section, at, at + 2));
        lemma_number(part(section, at + 2, at + 4));
        assert(next_word(end) == at + 4 + padded(a.value.len() as int));
        lemma_held(section, list.drop_first(), next_word(end));
        let got = attributes(section, at)->0;
        let rest = attributes(section, next_word(end))->0;
        assert(got =~= seq![Attribute { pos: at, kind: a.kind as int, value: a.value }] + rest);
        assert forall|i: int| 0 <= i < list.len() implies {
            let a = #[trigger] got[i];
            a.pos == list[i].at && a.kind == list[i].kind && a.value == list[i].value
        } by {
            if i > 0 {
                assert(got[i] == rest[i - 1]);
                assert(list[i] == list.drop_first()[i - 1]);
            }
        }
    }
}

/// A section that can be read holds what was read.
proof fn lemma_readable(section: Seq<u8>, at: int) -> (list: Seq<Laid>)
    requires
        attributes(section, at) is Some,
        at >= 0,
        at % 4 == 0,
    ensures
        holds(section, list, at),
    decreases section.len() + 4 - at,
{
    if at + 4 > section.len() {
        Seq::empty()
    } else {
        lemma_number(part(section, at, at + 2));
        lemma_number(part(section, at + 2, at + 4));
        let len = number(part(section, at + 2, at + 4)) as int;
        let end = at + 4 + len;
        assert(next_word(end) == at + 4 + padded(len));
        let rest = lemma_readable(section, next_word(end));
        let a = Laid {
            at,
            kind: number(part(section, at, at + 2)),
            value: part(section, at + 4, end),
        };
        let list = seq![a] + rest;
        assert(list.drop_first() =~= rest);
        list
    }
}

/// A packet with a request's head is answered exactly where its section holds attributes among
/// which one says `tailnode`, and of which the last seals the packet.
pub proof fn law_what_is_answered(
    packet: &[u8],
    source: Endpoint,
    r: Option<Vec<u8>>,
    list: Seq<Laid>,
)
    requires
        call_ensures(respond, (packet, source), r),
        has_head(packet@),
        holds(section_of(packet@), list, 0),
    ensures
        r is Some <==> list.len() > 0 && seals(list.last(), packet@) && exists|i: int|
            0 <= i < list.len() && says_tailnode(#[trigger] list[i]),
{
    let section = section_of(packet@);
    lemma_number(part(packet@, 2, 4));
    assert(section == attribute_section(packet@));
    lemma_held(section, list, 0);
    let got = attributes(section, 0)->0;
    assert(TAILNODE@ =~= seq![0x74u8, 0x61, 0x69, 0x6c, 0x6e, 0x6f, 0x64, 0x65]);
    assert(packet@.subrange(4, 8) =~= COOKIE@);
    if list.len() > 0 {
        let last = list.last();
        assert(got[list.len() - 1].value == last.value);
        lemma_number(last.value);
        let want = crc32_of(part(packet@, 0, 20 + last.at)) ^ 0x5354_554e;
        law_be32_round_trip(want);
        if last.value.len() == 4 && number(last.value) == want {
            assert(last.value =~= be32(want));
        }
    }
    if r is Some {
        let i = choose|i: int| 0 <= i < got.len() && crate::stun::is_tailnode(#[trigger] got[i]);
        assert(says_tailnode(list[i]));
    }
    if list.len() > 0 && seals(list.last(), packet@) && exists|i: int|
        0 <= i < list.len() && says_tailnode(#[trigger] list[i]) {
        let i = choose|i: int| 0 <= i < list.len() && says_tailnode(#[trigger] list[i]);
        assert(crate::stun::is_tailnode(got[i]));
    }
}

/// Nothing is answered that has no request's head, or whose section does not hold attributes.
pub proof fn law_what_is_not_answered(packet: &[u8], source: Endpoint, r: Option<Vec<u8>>)
    requires
        call_ensures(respond, (packet, source), r),
    ensures
        r is Some ==> has_head(packet@) && exists|list: Seq<Laid>| #[trigger]
            holds(section_of(packet@), list, 0),
{
    if r is Some {
        lemma_number(part(packet@, 2, 4));
        assert(packet@[4] == packet@.subrange(4, 8)[0]);
        assert(packet@[5] == packet@.subrange(4, 8)[1]);
        assert(packet@[6] == packet@.subrange(4, 8)[2]);
        assert(packet@[7] == packet@.subrange(4, 8)[3]);
        assert(section_of(packet@) == attribute_section(packet@));
        let list = lemma_readable(section_of(packet@), 0);
        assert(holds(section_of(packet@), list, 0));
    }
}

/// The octets of an address.
pub open spec fn octets_of(ip: IpAddress) -> Seq<u8> {
    match ip {
        IpAddress::V4(o) => o@,
        IpAddress::V6(o) => o@,
    }
}

/// The answer, byte by byte: success, the length, the cookie, the request's transaction ID, and one
/// XOR-MAPPED-ADDRESS. Each of its address bytes, XORed with the byte that stands twenty-four
/// before it in the answer, is an octet of the source; its port bytes, XORed with the first two of
/// the cookie, are the source's port.
pub proof fn law_answered_bytes(packet: &[u8], source: Endpoint, out: Vec<u8>)
    requires
        call_ensures(respond, (packet, source), Some(out)),
    ensures
        ({
            let o = octets_of(source.ip);
            let r = out@;
            &&& r.len() == 28 + o.len()
            &&& r[0] == 1 && r[1] == 1
            &&& number(part(r, 2, 4)) == r.len() - 20
            &&& r[4] == 0x21 && r[5] == 0x12 && r[6] == 0xa4 && r[7] == 0x42
            &&& part(r, 8, 20) == part(packet@, 8, 20)
            &&& r[20] == 0 && r[21] == 0x20
            &&& number(part(r, 22, 24)) == 4 + o.len()
            &&& r[24] == 0
            &&& r[25] == if source.ip is V4 {
                1u8
            } else {
                2u8
            }
            &&& (r[26] ^ r[4]) * 256 + (r[27] ^ r[5]) == source.port
            &&& forall|i: int| 0 <= i < o.len() ==> (#[trigger] r[28 + i] ^ r[4 + i]) == o[i]
        }),
{
    let o = octets_of(source.ip);
    let r = out@;
    let port = source.port;
    let x = port ^ 0x2112;
    assert(r == response(packet@, source@));
    assert(source@.octets == o);
    assert(o.len() == 4 || o.len() == 16);
    lemma_number(part(r, 2, 4));
    lemma_number(part(r, 22, 24));
    assert(part(r, 8, 20) =~= part(packet@, 8, 20));
    assert(r[26] == (x / 0x100) as u8);
    assert(r[27] == (x % 0x100) as u8);
    assert((((port ^ 0x2112) / 0x100) as u8 ^ 0x21u8) as u16 == port / 0x100) by (bit_vector);
    assert((((port ^ 0x2112) % 0x100) as u8 ^ 0x12u8) as u16 == port % 0x100) by (bit_vector);
    assert forall|i: int| 0 <= i < o.len() implies (#[trigger] r[28 + i] ^ r[4 + i]) == o[i] by {
        let a = o[i];
        let b = r[4 + i];
        assert(r[28 + i] == a ^ b);
        assert((a ^ b) ^ b == a) by (bit_vector);
    }
}

} // verus!
