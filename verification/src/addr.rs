//! Socket addresses as the crawler sees them.
//!
//! A peer is identified by an IP address and a port. The IP is held as its
//! numeric value (32 bits for IPv4, 128 bits for IPv6) so that equality and
//! ordering are plain integer facts.

use vstd::prelude::*;

verus! {

/// The numeric value of an IP address.
#[derive(Clone, Copy, PartialEq, Eq, Structural, Debug)]
pub enum IpRepr {
    /// An IPv4 address as a 32-bit big-endian value.
    V4(u32),
    /// An IPv6 address as a 128-bit big-endian value.
    V6(u128),
}

/// A socket address: an IP address and a port.
#[derive(Clone, Copy, PartialEq, Eq, Structural, Debug)]
pub struct NodeAddr {
    pub ip: IpRepr,
    pub port: u16,
}

impl NodeAddr {
    /// Builds an IPv4 socket address from its four octets and a port.
    pub fn v4(a: u8, b: u8, c: u8, d: u8, port: u16) -> (r: NodeAddr)
        ensures
            r.ip == IpRepr::V4(ipv4_value(a, b, c, d)),
            r.port == port,
    {
        let value: u32 = ((a as u32) << 24) | ((b as u32) << 16) | ((c as u32) << 8) | (d as u32);
        proof {
            assert(((a as u32) << 24) | ((b as u32) << 16) | ((c as u32) << 8) | (d as u32)
                == ipv4_value(a, b, c, d)) by (bit_vector);
        }
        NodeAddr { ip: IpRepr::V4(value), port }
    }
}

/// The 32-bit value of the IPv4 address `a.b.c.d`.
pub open spec fn ipv4_value(a: u8, b: u8, c: u8, d: u8) -> u32 {
    (((a as u32) << 24) | ((b as u32) << 16) | ((c as u32) << 8) | (d as u32)) as u32
}

} // verus!
