//! Address resolution, bind planning with address/port reuse, and
//! multicast membership operations.
//!
//! Everything here decides; the runtime layer that owns the operating
//! system sockets carries the decisions out. A [`BindPlan`] says which
//! socket family to build and which reuse options to set before binding,
//! and a [`MulticastOp`] says which platform primitive to call with which
//! arguments, preserving the per-family asymmetry: a V4 membership is
//! keyed by the interface's IP, a V6 membership by the interface's scope
//! id.

use vstd::prelude::*;

use crate::addr::IpAddress;
use crate::addr::IpVersionMode;
use crate::addr::Ipv4Address;
use crate::addr::Ipv6Address;
use crate::addr::NetError;
use crate::addr::SocketAddress;
use crate::addr::SocketAddressV4;
use crate::addr::SocketAddressV6;
use crate::addr::version_of;
use crate::text::dec_run_end;
use crate::text::groups_after;
use crate::text::hex_run_end;
use crate::text::ipv4_after;
use crate::text::ipv6_after;
use crate::text::is_dec_digit;
use crate::text::octet_after;
use crate::text::parse_ipv4;
use crate::text::parse_socket_addr;
use crate::text::parse_socket_addr_text;
use crate::text::parse_socket_v4;
use crate::text::parse_socket_v6;
use crate::text::parse_v6_host;
use crate::text::socket_v4_text;
use crate::text::lemma_socket_v4_text_resolves;
use crate::text::lemma_socket_v6_text_resolves;
use crate::text::socket_v6_text;

verus! {

/// Everything the runtime layer must know to bind a reusable UDP socket:
/// the resolved local address (which fixes the socket family) and the two
/// reuse options to enable before binding.
#[derive(Clone, Copy, PartialEq, Eq, Structural, Debug)]
pub struct BindPlan {
    pub local: SocketAddress,
    pub reuse_address: bool,
    pub reuse_port: bool,
}

/// A multicast join or leave, fully specified for the platform call of the
/// matching family.
#[derive(Clone, Copy, PartialEq, Eq, Structural, Debug)]
#[allow(inconsistent_fields)]
pub enum MulticastOp {
    /// Join or leave `group` on the interface with this IP.
    V4 { group: Ipv4Address, interface_ip: Ipv4Address },
    /// Join or leave `group` on the interface with this scope id; the V6
    /// primitive is keyed by scope id, not by the interface's IP.
    V6 { group: Ipv6Address, scope_id: u32 },
}

/// The multicast operation for an interface address and a group address,
/// or nothing when their families differ.
pub open spec fn multicast_op(iface: SocketAddress, group: IpAddress) -> Option<MulticastOp> {
    match (iface, group) {
        (SocketAddress::V4(i), IpAddress::V4(m)) => Some(
            MulticastOp::V4 { group: m, interface_ip: i.ip },
        ),
        (SocketAddress::V6(i), IpAddress::V6(m)) => Some(
            MulticastOp::V6 { group: m, scope_id: i.scope_id },
        ),
        _ => None,
    }
}

/// The IP address carried by a socket address, with the port dropped.
pub open spec fn ip_of(a: SocketAddress) -> IpAddress {
    match a {
        SocketAddress::V4(v) => IpAddress::V4(v.ip),
        SocketAddress::V6(v) => IpAddress::V6(v.ip),
    }
}

/// Resolves an address literal to the one concrete socket address it
/// denotes. A text that is not a full `ip:port` literal of either family
/// — a bare IP with no port among them — yields `InvalidInput`.
pub fn addr_from_trait(addr: &str) -> (r: Result<SocketAddress, NetError>)
    ensures
        match r {
            Ok(a) => parse_socket_addr(addr@) == Some(a),
            Err(e) => parse_socket_addr(addr@) is None && e == NetError::InvalidInput,
        },
{
    match parse_socket_addr_text(addr) {
        Some(a) => Ok(a),
        None => Err(NetError::InvalidInput),
    }
}

impl IpVersionMode {
    /// Resolves the literal and classifies its family. Only `V4Only` and
    /// `V6Only` can come out: a resolved address has exactly one version.
    pub fn from_addr(addr: &str) -> (r: Result<IpVersionMode, NetError>)
        ensures
            match r {
                Ok(m) => parse_socket_addr(addr@) matches Some(a) && m == version_of(a) && m
                    != IpVersionMode::Any,
                Err(e) => parse_socket_addr(addr@) is None && e == NetError::InvalidInput,
            },
    {
        match addr_from_trait(addr)? {
            SocketAddress::V4(_) => Ok(IpVersionMode::V4Only),
            SocketAddress::V6(_) => Ok(IpVersionMode::V6Only),
        }
    }
}

/// Resolves the local address and plans a reusable bind: address reuse is
/// always enabled, so multiple listeners can share one multicast port, and
/// port reuse is enabled exactly where the platform supports
/// simultaneous-bind semantics. The caller settles `port_reuse_supported`
/// once per target platform.
pub fn bind_reuse(local_addr: &str, port_reuse_supported: bool) -> (r: Result<BindPlan, NetError>)
    ensures
        match r {
            Ok(p) => parse_socket_addr(local_addr@) == Some(p.local) && p.reuse_address
                && p.reuse_port == port_reuse_supported,
            Err(e) => parse_socket_addr(local_addr@) is None && e == NetError::InvalidInput,
        },
{
    let local = addr_from_trait(local_addr)?;
    Ok(BindPlan { local, reuse_address: true, reuse_port: port_reuse_supported })
}

/// A resolved literal has exactly one family: a text that parses as a V4
/// socket-address literal does not parse as a V6 one and the other way
/// round, so the address [`addr_from_trait`] yields is unambiguous and its
/// family is the literal's own.
pub proof fn lemma_literal_family_unambiguous(s: Seq<char>)
    ensures
        parse_socket_v4(s) is Some ==> parse_socket_v6(s) is None,
        parse_socket_v6(s) is Some ==> parse_socket_v4(s) is None,
        parse_socket_v4(s) matches Some(a) ==> parse_socket_addr(s) == Some(
            SocketAddress::V4(a),
        ),
        parse_socket_v6(s) matches Some(a) ==> parse_socket_addr(s) == Some(
            SocketAddress::V6(a),
        ),
{
    if parse_socket_v6(s) is Some {
        assert(s[0] == '[');
        assert(dec_run_end(s, 0) == 0);
        assert(parse_socket_v4(s) is None);
    }
}

/// Every canonical `ip:port` dotted-quad text resolves, to exactly the
/// socket address it was written from — with its family, its octets and
/// its port intact.
pub proof fn lemma_resolve_round_trip(sa: SocketAddressV4)
    ensures
        parse_socket_addr(socket_v4_text(sa)) == Some(SocketAddress::V4(sa)),
{
    lemma_socket_v4_text_resolves(sa);
    lemma_literal_family_unambiguous(socket_v4_text(sa));
}

/// Every IPv6 socket address written out in full — all eight hextets, no
/// compression, no scope — resolves, to exactly those hextets and that
/// port.
pub proof fn lemma_resolve_v6_round_trip(a: Ipv6Address, port: u16)
    ensures
        parse_socket_addr(socket_v6_text(a, port)) == Some(
            SocketAddress::V6(SocketAddressV6 { ip: a, port, flowinfo: 0, scope_id: 0 }),
        ),
{
    lemma_socket_v6_text_resolves(a, port);
    lemma_literal_family_unambiguous(socket_v6_text(a, port));
}

/// A bare IP literal with no port does not resolve: neither a whole IPv4
/// address text nor a whole IPv6 host text is a socket-address literal.
pub proof fn lemma_bare_ip_does_not_resolve(s: Seq<char>)
    ensures
        parse_ipv4(s) is Some ==> parse_socket_addr(s) is None,
        parse_v6_host(s) is Some ==> parse_socket_addr(s) is None,
{
    if parse_ipv4(s) is Some {
        let (a, e) = ipv4_after(s, 0)->Some_0;
        assert(e == s.len());
        assert(parse_socket_v4(s) is None);
        assert(s[0] != '[') by {
            assert(octet_after(s, 0) is Some);
            assert(is_dec_digit(s[0]));
        }
        assert(parse_socket_v6(s) is None);
    }
    if parse_v6_host(s) is Some {
        assert(ipv6_after(s, 0) is Some);
        if ipv4_after(s, 0) is Some {
            assert(groups_after(s, 0, 8, true).2);
            assert(groups_after(s, 0, 8, true).0.len() == 2);
            assert(ipv6_after(s, 0) is None);
        }
        assert(parse_socket_v4(s) is None);
        assert(s.len() > 0 ==> s[0] != '[') by {
            if s.len() > 0 && s[0] == '[' {
                assert(hex_run_end(s, 0) == 0);
                assert(groups_after(s, 0, 8, true).0.len() == 0);
                assert(groups_after(s, 0, 8, true).1 == 0);
                assert(ipv6_after(s, 0) is None);
            }
        }
        assert(parse_socket_v6(s) is None);
    }
}

/// The operation that joins `mcast_addr` on the interface bound at
/// `iface`. Mismatched families fail with `InvalidInput` before any
/// platform call is attempted.
pub fn join_multicast(iface: &SocketAddress, mcast_addr: &IpAddress) -> (r: Result<
    MulticastOp,
    NetError,
>)
    ensures
        match r {
            Ok(op) => multicast_op(*iface, *mcast_addr) == Some(op),
            Err(e) => multicast_op(*iface, *mcast_addr) is None && e == NetError::InvalidInput,
        },
{
    match (iface, mcast_addr) {
        (SocketAddress::V4(i), IpAddress::V4(m)) => Ok(
            MulticastOp::V4 { group: *m, interface_ip: i.ip },
        ),
        (SocketAddress::V6(i), IpAddress::V6(m)) => Ok(
            MulticastOp::V6 { group: *m, scope_id: i.scope_id },
        ),
        _ => Err(NetError::InvalidInput),
    }
}

/// The operation that leaves the group at `mcast_addr` on the interface
/// bound at `iface_addr`; the group's port is irrelevant and dropped.
/// Mismatched families fail with `InvalidInput` before any platform call
/// is attempted.
pub fn leave_multicast(iface_addr: &SocketAddress, mcast_addr: &SocketAddress) -> (r: Result<
    MulticastOp,
    NetError,
>)
    ensures
        match r {
            Ok(op) => multicast_op(*iface_addr, ip_of(*mcast_addr)) == Some(op),
            Err(e) => multicast_op(*iface_addr, ip_of(*mcast_addr)) is None && e
                == NetError::InvalidInput,
        },
{
    match (iface_addr, mcast_addr) {
        (SocketAddress::V4(i), SocketAddress::V4(m)) => Ok(
            MulticastOp::V4 { group: m.ip, interface_ip: i.ip },
        ),
        (SocketAddress::V6(i), SocketAddress::V6(m)) => Ok(
            MulticastOp::V6 { group: m.ip, scope_id: i.scope_id },
        ),
        _ => Err(NetError::InvalidInput),
    }
}

} // verus!
