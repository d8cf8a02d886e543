use vstd::prelude::*;

verus! {

/// An IP address: IPv4 as its 32-bit value, IPv6 as its 128-bit value,
/// most significant octet first in both.
#[derive(Debug, Clone, Copy, PartialEq, Eq, Structural)]
pub enum IpAddr {
    V4(u32),
    V6(u128),
}

/// An IP address with a port.
#[derive(Debug, Clone, Copy, PartialEq, Eq, Structural)]
pub struct SocketAddr {
    pub ip: IpAddr,
    pub port: u16,
}

/// The IPv4 address a.b.c.d.
pub open spec fn ipv4_value(a: u8, b: u8, c: u8, d: u8) -> u32 {
    ((a as u32) * 0x1000000 + (b as u32) * 0x10000 + (c as u32) * 0x100 + (d as u32)) as u32
}

/// Whether `other` lies in the network of `ip` under `mask`; addresses of
/// different families never do.
pub open spec fn same_network(ip: IpAddr, mask: IpAddr, other: IpAddr) -> bool {
    match (ip, mask, other) {
        (IpAddr::V4(i), IpAddr::V4(m), IpAddr::V4(o)) => i & m == o & m,
        (IpAddr::V6(i), IpAddr::V6(m), IpAddr::V6(o)) => i & m == o & m,
        _ => false,
    }
}

impl IpAddr {
    /// The IPv4 address a.b.c.d.
    pub fn v4(a: u8, b: u8, c: u8, d: u8) -> (r: IpAddr)
        ensures
            r == IpAddr::V4(ipv4_value(a, b, c, d)),
    {
        IpAddr::V4((a as u32) * 0x1000000 + (b as u32) * 0x10000 + (c as u32) * 0x100 + (d as u32))
    }
}

/// Whether `other` lies in the network of `ip` under `mask`.
pub fn is_same_network(ip: IpAddr, netmask: IpAddr, other: IpAddr) -> (r: bool)
    ensures
        r == same_network(ip, netmask, other),
{
    match (ip, netmask, other) {
        (IpAddr::V4(i), IpAddr::V4(m), IpAddr::V4(o)) => (i & m) == (o & m),
        (IpAddr::V6(i), IpAddr::V6(m), IpAddr::V6(o)) => (i & m) == (o & m),
        _ => false,
    }
}

} // verus!
