//! The UDP connector: one bound local address, and per call the
//! destination a logical `host:port` pair denotes for that local socket.
//!
//! The destination's family always follows the *local* bound address, not
//! the host text: a V4-bound connector parses the host strictly as a
//! dotted-quad literal (no name lookup happens at this layer), and a
//! V6-bound connector accepts the host with or without `[...]` framing,
//! parses it as an IPv6 literal with an optional `%scope` suffix, and then
//! overwrites the parsed flow info and scope id with the local socket's
//! own values — flow and scope context is link-local and must match the
//! interface actually in use, not whatever the text implied.
//!
//! The runtime layer duplicates the socket handle and wraps it with the
//! computed destination into a stream; no data moves during `connect`
//! itself.

use vstd::prelude::*;
use vstd::string::StrSliceExecFns;

use crate::addr::Ipv4Address;
use crate::addr::Ipv6Address;
use crate::addr::NetError;
use crate::addr::SocketAddress;
use crate::addr::SocketAddressV4;
use crate::addr::SocketAddressV6;
use crate::text::ipv4_text;
use crate::text::lemma_ipv4_text_parses;
use crate::text::groups_text;
use crate::text::lemma_v6_host_text_parses;
use crate::text::parse_ipv4;
use crate::text::v6_groups;
use crate::text::parse_ipv4_text;
use crate::text::parse_v6_host;
use crate::text::parse_v6_host_text;

verus! {

/// Host text with surrounding `[...]` framing: the first character is `[`
/// and the last is `]`.
pub open spec fn is_bracket_framed(s: Seq<char>) -> bool {
    s.len() >= 1 && s[0] == '[' && s[s.len() - 1] == ']'
}

/// The host text with its `[...]` framing stripped where present.
pub open spec fn v6_host_inner(s: Seq<char>) -> Seq<char> {
    if is_bracket_framed(s) {
        s.subrange(1, s.len() - 1)
    } else {
        s
    }
}

/// The destination a `host:port` pair denotes for a socket bound at
/// `local`, or nothing when the host text is malformed for the local
/// family.
pub open spec fn connect_dest(local: SocketAddress, host: Seq<char>, port: u16) -> Option<
    SocketAddress,
> {
    match local {
        SocketAddress::V4(_) => match parse_ipv4(host) {
            Some(ip) => Some(SocketAddress::V4(SocketAddressV4 { ip, port })),
            None => None,
        },
        SocketAddress::V6(l) => match parse_v6_host(v6_host_inner(host)) {
            Some((ip, _)) => Some(
                SocketAddress::V6(
                    SocketAddressV6 { ip, port, flowinfo: l.flowinfo, scope_id: l.scope_id },
                ),
            ),
            None => None,
        },
    }
}

/// A connector for one bound UDP socket, remembered here by the concrete
/// address the socket is bound to. Each `connect` call is stateless with
/// respect to the connector and only reads this address.
pub struct UdpConnector {
    local: SocketAddress,
}

impl UdpConnector {
    /// The address this connector's socket is bound to.
    pub closed spec fn local_address(&self) -> SocketAddress {
        self.local
    }

    /// Creates a connector over a socket bound at `local_addr`. The
    /// multicast TTL parameter is accepted but not yet effective: wiring
    /// it to the platform call is a deferred feature, and callers must not
    /// rely on it.
    pub fn new(local_addr: SocketAddress, multicast_ttl: Option<u32>) -> (c: UdpConnector)
        ensures
            c.local_address() == local_addr,
    {
        let _ = multicast_ttl;
        UdpConnector { local: local_addr }
    }

    /// The address the underlying socket is bound to.
    pub fn local_addr(&self) -> (a: SocketAddress)
        ensures
            a == self.local_address(),
    {
        self.local
    }

    /// Computes the destination address for a logical `host:port`
    /// destination, following the local socket's family. Malformed host
    /// text for that family is `InvalidInput`; in particular a hostname is
    /// an error for a V4-bound connector, which performs no name lookup.
    pub fn connect(&self, host: &str, port: u16) -> (r: Result<SocketAddress, NetError>)
        ensures
            match r {
                Ok(d) => connect_dest(self.local_address(), host@, port) == Some(d),
                Err(e) => connect_dest(self.local_address(), host@, port) is None && e
                    == NetError::InvalidInput,
            },
    {
        match self.local {
            SocketAddress::V4(_) => match parse_ipv4_text(host) {
                Some(ip) => Ok(SocketAddress::V4(SocketAddressV4 { ip, port })),
                None => Err(NetError::InvalidInput),
            },
            SocketAddress::V6(l) => {
                let len = host.unicode_len();
                let framed = len >= 1 && host.get_char(0) == '[' && host.get_char(len - 1) == ']';
                let inner: &str = if framed {
                    host.substring_char(1, len - 1)
                } else {
                    host
                };
                proof {
                    assert(inner@ == v6_host_inner(host@));
                }
                match parse_v6_host_text(inner) {
                    Some((ip, _)) => Ok(
                        SocketAddress::V6(
                            SocketAddressV6 {
                                ip,
                                port,
                                flowinfo: l.flowinfo,
                                scope_id: l.scope_id,
                            },
                        ),
                    ),
                    None => Err(NetError::InvalidInput),
                }
            },
        }
    }

    /// Consumes the connector and yields the bound socket's address back
    /// to the owner; the connector cannot be used afterwards.
    pub fn deconstruct(self) -> (a: SocketAddress)
        ensures
            a == self.local_address(),
    {
        self.local
    }
}

/// A V4-bound connector builds its destination as exactly the host
/// literal's address with the given port, and yields one if and only if
/// the host text is a dotted-quad literal.
pub proof fn lemma_connect_v4_exact(l: SocketAddressV4, host: Seq<char>, port: u16)
    ensures
        parse_ipv4(host) matches Some(ip) ==> connect_dest(SocketAddress::V4(l), host, port)
            == Some(SocketAddress::V4(SocketAddressV4 { ip, port })),
        parse_ipv4(host) is None ==> connect_dest(SocketAddress::V4(l), host, port) is None,
{
}

/// For every dotted-quad host text and every port, a V4-bound connector
/// succeeds and its destination is exactly that host with that port.
pub proof fn lemma_connect_v4_round_trip(l: SocketAddressV4, a: Ipv4Address, port: u16)
    ensures
        connect_dest(SocketAddress::V4(l), ipv4_text(a), port) == Some(
            SocketAddress::V4(SocketAddressV4 { ip: a, port }),
        ),
{
    lemma_ipv4_text_parses(a);
}

/// For every IPv6 address written out in full as the host text and every
/// port, a V6-bound connector succeeds, and its destination carries that
/// address, that port, and the local socket's flow info and scope id.
pub proof fn lemma_connect_v6_round_trip(l: SocketAddressV6, a: Ipv6Address, port: u16)
    ensures
        connect_dest(SocketAddress::V6(l), groups_text(v6_groups(a)), port) == Some(
            SocketAddress::V6(
                SocketAddressV6 { ip: a, port, flowinfo: l.flowinfo, scope_id: l.scope_id },
            ),
        ),
{
    lemma_v6_host_text_parses(a);
    let h = groups_text(v6_groups(a));
    assert(h[0] != '[');
    assert(!is_bracket_framed(h));
    assert(v6_host_inner(h) == h);
}

/// A V6-bound connector stamps its own flow info and scope id on every
/// destination it yields, whatever scope or flow the host text itself
/// encoded, and hands the given port through unchanged.
pub proof fn lemma_connect_v6_stamps_local_context(l: SocketAddressV6, host: Seq<char>, port: u16)
    ensures
        connect_dest(SocketAddress::V6(l), host, port) matches Some(d) ==> (d
            matches SocketAddress::V6(dv) && dv.flowinfo == l.flowinfo && dv.scope_id == l.scope_id
            && dv.port == port),
{
}

/// The host text `h` wrapped in `[...]` framing.
pub open spec fn bracketed(h: Seq<char>) -> Seq<char> {
    seq!['['] + h + seq![']']
}

/// A V6-bound connector treats a host text and its bracketed form alike:
/// for every host text that is not already bracket-framed, the bracketed
/// and the bare form denote the same destination for the same port.
pub proof fn lemma_connect_brackets_agnostic(local: SocketAddress, host: Seq<char>, port: u16)
    requires
        local is V6,
        !is_bracket_framed(host),
    ensures
        connect_dest(local, bracketed(host), port) == connect_dest(local, host, port),
{
    let b = bracketed(host);
    assert(b.len() == host.len() + 2);
    assert(b[0] == '[');
    assert(b[b.len() - 1] == ']');
    assert(is_bracket_framed(b));
    assert(b.subrange(1, b.len() - 1) =~= host);
    assert(v6_host_inner(b) == host);
    assert(v6_host_inner(host) == host);
}

} // verus!
