//! Network endpoints as plain octets and a port.

use vstd::prelude::*;

verus! {

/// An IP address.
#[derive(Clone, Copy, Debug, PartialEq, Eq)]
pub enum IpAddress {
    /// The four octets of an IPv4 address.
    V4([u8; 4]),
    /// The sixteen octets of an IPv6 address.
    V6([u8; 16]),
}

/// An IP address with a port.
#[derive(Clone, Copy, Debug, PartialEq, Eq)]
pub struct Endpoint {
    pub ip: IpAddress,
    pub port: u16,
}

/// The model of an endpoint: four octets for IPv4, sixteen for IPv6.
pub struct EndpointView {
    pub octets: Seq<u8>,
    pub port: u16,
}

impl IpAddress {
    /// The octets in network order.
    pub open spec fn octets(self) -> Seq<u8> {
        match self {
            IpAddress::V4(o) => o@,
            IpAddress::V6(o) => o@,
        }
    }
}

impl View for Endpoint {
    type V = EndpointView;

    open spec fn view(&self) -> EndpointView {
        EndpointView { octets: self.ip.octets(), port: self.port }
    }
}

/// The sixteen octets that stand for an address where only IPv6 fits: an IPv4 address `a.b.c.d`
/// becomes `::ffff:a.b.c.d`.
pub open spec fn mapped_octets(octets: Seq<u8>) -> Seq<u8> {
    if octets.len() == 4 {
        seq![0u8, 0, 0, 0, 0, 0, 0, 0, 0, 0, 0xff, 0xff] + octets
    } else {
        octets
    }
}

impl IpAddress {
    /// The address as sixteen octets, an IPv4 address in its IPv4-mapped IPv6 form.
    pub fn to_mapped(&self) -> (r: [u8; 16])
        ensures
            r@ == mapped_octets(self.octets()),
    {
        match self {
            IpAddress::V4(o) => {
                let r: [u8; 16] = [
                    0, 0, 0, 0, 0, 0, 0, 0, 0, 0, 0xff, 0xff, o[0], o[1], o[2], o[3],
                ];
                proof {
                    assert(r@ =~= mapped_octets(o@));
                }
                r
            },
            IpAddress::V6(o) => *o,
        }
    }
}

} // verus!
