//! The address model: IP addresses, socket addresses and the IP-version
//! classification, all held as plain integer fields.

use vstd::prelude::*;

verus! {

/// An IPv4 address as its four octets.
#[derive(Clone, Copy, PartialEq, Eq, Structural, Debug)]
pub struct Ipv4Address {
    pub o0: u8,
    pub o1: u8,
    pub o2: u8,
    pub o3: u8,
}

/// An IPv6 address as its eight 16-bit hextets.
#[derive(Clone, Copy, PartialEq, Eq, Structural, Debug)]
pub struct Ipv6Address {
    pub s0: u16,
    pub s1: u16,
    pub s2: u16,
    pub s3: u16,
    pub s4: u16,
    pub s5: u16,
    pub s6: u16,
    pub s7: u16,
}

/// An IP address of either family.
#[derive(Clone, Copy, PartialEq, Eq, Structural, Debug)]
pub enum IpAddress {
    V4(Ipv4Address),
    V6(Ipv6Address),
}

/// An IPv4 socket address.
#[derive(Clone, Copy, PartialEq, Eq, Structural, Debug)]
pub struct SocketAddressV4 {
    pub ip: Ipv4Address,
    pub port: u16,
}

/// An IPv6 socket address, with the flow info and scope id that the
/// operating system keeps beside the address proper.
#[derive(Clone, Copy, PartialEq, Eq, Structural, Debug)]
pub struct SocketAddressV6 {
    pub ip: Ipv6Address,
    pub port: u16,
    pub flowinfo: u32,
    pub scope_id: u32,
}

/// A resolved socket address: exactly one IP version.
#[derive(Clone, Copy, PartialEq, Eq, Structural, Debug)]
pub enum SocketAddress {
    V4(SocketAddressV4),
    V6(SocketAddressV6),
}

/// Which IP versions an address or a socket covers.
///
/// `Any` is part of the declared state space but is never produced by
/// [`IpVersionMode::from_addr`]: a resolved address always has exactly one
/// version.
#[derive(Clone, Copy, PartialEq, Eq, Structural, Debug)]
pub enum IpVersionMode {
    V4Only,
    V6Only,
    Any,
}

/// The error kinds this crate itself produces. Operating-system failures
/// (bind, handle duplication, send) belong to the runtime layer and are
/// surfaced there verbatim.
#[derive(Clone, Copy, PartialEq, Eq, Structural, Debug)]
pub enum NetError {
    /// A malformed address or host literal, zero resolved candidates, or
    /// mismatched multicast address families.
    InvalidInput,
}

/// The IP version of a resolved socket address.
pub open spec fn version_of(a: SocketAddress) -> IpVersionMode {
    match a {
        SocketAddress::V4(_) => IpVersionMode::V4Only,
        SocketAddress::V6(_) => IpVersionMode::V6Only,
    }
}

} // verus!
