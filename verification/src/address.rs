//! Where a peer is reached: an internet host and a port, as plain numbers.

use vstd::prelude::*;

verus! {

/// The 96 bits in front of an IPv4 address that is written as an IPv6 one.
pub const IPV4_MAPPED: u128 = 0xffff_0000_0000;

/// A peer's address. The host is an IPv6 address as a number; an IPv4 host
/// is held in its IPv4-mapped form.
#[derive(Clone, Copy, Debug, PartialEq, Eq, Hash, Structural)]
pub struct Address {
    pub host: u128,
    pub port: u16,
}

/// The number of the IPv4 host `a.b.c.d` in IPv4-mapped form.
pub open spec fn v4_host(a: u8, b: u8, c: u8, d: u8) -> u128 {
    (IPV4_MAPPED + a * 0x100_0000 + b * 0x1_0000 + c * 0x100 + d) as u128
}

impl Address {
    pub fn new(host: u128, port: u16) -> (address: Address)
        ensures
            address == (Address { host, port }),
    {
        Address { host, port }
    }

    /// The address of port `port` on the IPv4 host `a.b.c.d`.
    pub fn v4(a: u8, b: u8, c: u8, d: u8, port: u16) -> (address: Address)
        ensures
            address == (Address { host: v4_host(a, b, c, d), port }),
    {
        let host: u128 = IPV4_MAPPED + (a as u128) * 0x100_0000 + (b as u128) * 0x1_0000 + (
        c as u128) * 0x100 + (d as u128);
        Address { host, port }
    }

    /// The four numbers of the host if it is an IPv4 one.
    pub fn v4_octets(&self) -> (octets: Option<(u8, u8, u8, u8)>)
        ensures
            match octets {
                Some((a, b, c, d)) => self.host == v4_host(a, b, c, d),
                None => forall|a: u8, b: u8, c: u8, d: u8| self.host != v4_host(a, b, c, d),
            },
    {
        if self.host >= IPV4_MAPPED && self.host - IPV4_MAPPED <= 0xffff_ffff {
            let low: u128 = self.host - IPV4_MAPPED;
            let a: u8 = (low / 0x100_0000) as u8;
            let b: u8 = ((low / 0x1_0000) % 0x100) as u8;
            let c: u8 = ((low / 0x100) % 0x100) as u8;
            let d: u8 = (low % 0x100) as u8;
            Some((a, b, c, d))
        } else {
            None
        }
    }
}

} // verus!
