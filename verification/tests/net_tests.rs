use udpnet::addr::IpAddress;
use udpnet::addr::IpVersionMode;
use udpnet::addr::Ipv4Address;
use udpnet::addr::Ipv6Address;
use udpnet::addr::NetError;
use udpnet::addr::SocketAddress;
use udpnet::addr::SocketAddressV4;
use udpnet::addr::SocketAddressV6;
use udpnet::connector::UdpConnector;
use udpnet::net::addr_from_trait;
use udpnet::net::bind_reuse;
use udpnet::net::join_multicast;
use udpnet::net::leave_multicast;
use udpnet::net::MulticastOp;

fn v4(o0: u8, o1: u8, o2: u8, o3: u8, port: u16) -> SocketAddress {
    SocketAddress::V4(SocketAddressV4 {
        ip: Ipv4Address { o0, o1, o2, o3 },
        port,
    })
}

fn v6_ip(s: [u16; 8]) -> Ipv6Address {
    Ipv6Address {
        s0: s[0],
        s1: s[1],
        s2: s[2],
        s3: s[3],
        s4: s[4],
        s5: s[5],
        s6: s[6],
        s7: s[7],
    }
}

fn v6(s: [u16; 8], port: u16, flowinfo: u32, scope_id: u32) -> SocketAddress {
    SocketAddress::V6(SocketAddressV6 {
        ip: v6_ip(s),
        port,
        flowinfo,
        scope_id,
    })
}

#[test]
fn positive_addr_from_trait() {
    addr_from_trait("192.168.0.1:0").unwrap();
}

#[test]
#[should_panic]
fn negative_addr_from_trait() {
    addr_from_trait("192.168.0.1").unwrap();
}

#[test]
fn resolve_v4_value() {
    assert_eq!(addr_from_trait("192.168.0.1:80"), Ok(v4(192, 168, 0, 1, 80)));
}

#[test]
fn resolve_v6_value() {
    assert_eq!(
        addr_from_trait("[2001:db8::1]:443"),
        Ok(v6([0x2001, 0xdb8, 0, 0, 0, 0, 0, 1], 443, 0, 0))
    );
}

#[test]
fn resolve_v6_scope_id() {
    assert_eq!(
        addr_from_trait("[fe80::1%3]:80"),
        Ok(v6([0xfe80, 0, 0, 0, 0, 0, 0, 1], 80, 0, 3))
    );
}

#[test]
fn resolve_v6_hex_case_insensitive() {
    assert_eq!(
        addr_from_trait("[ABcd::Ef01]:1"),
        Ok(v6([0xabcd, 0, 0, 0, 0, 0, 0, 0xef01], 1, 0, 0))
    );
}

#[test]
fn resolve_v6_unspecified() {
    assert_eq!(addr_from_trait("[::]:0"), Ok(v6([0, 0, 0, 0, 0, 0, 0, 0], 0, 0, 0)));
}

#[test]
fn resolve_v6_embedded_v4_tail() {
    assert_eq!(
        addr_from_trait("[::ffff:192.168.0.1]:80"),
        Ok(v6([0, 0, 0, 0, 0, 0xffff, 0xc0a8, 0x0001], 80, 0, 0))
    );
}

#[test]
fn resolve_v6_full_eight_groups() {
    assert_eq!(
        addr_from_trait("[1:2:3:4:5:6:7:8]:9"),
        Ok(v6([1, 2, 3, 4, 5, 6, 7, 8], 9, 0, 0))
    );
}

#[test]
fn resolve_port_leading_zeros() {
    assert_eq!(addr_from_trait("1.2.3.4:080"), Ok(v4(1, 2, 3, 4, 80)));
}

#[test]
fn resolve_port_largest() {
    assert_eq!(addr_from_trait("1.2.3.4:65535"), Ok(v4(1, 2, 3, 4, 65535)));
}

#[test]
fn resolve_rejects_port_overflow() {
    assert_eq!(addr_from_trait("1.2.3.4:65536"), Err(NetError::InvalidInput));
}

#[test]
fn resolve_rejects_octet_leading_zero() {
    assert_eq!(addr_from_trait("01.2.3.4:80"), Err(NetError::InvalidInput));
}

#[test]
fn resolve_rejects_octet_overflow() {
    assert_eq!(addr_from_trait("256.1.1.1:80"), Err(NetError::InvalidInput));
}

#[test]
fn resolve_rejects_double_compression() {
    assert_eq!(addr_from_trait("[1::2::3]:80"), Err(NetError::InvalidInput));
}

#[test]
fn resolve_rejects_long_hextet() {
    assert_eq!(addr_from_trait("[12345::1]:80"), Err(NetError::InvalidInput));
}

#[test]
fn resolve_rejects_hostname() {
    assert_eq!(addr_from_trait("localhost:80"), Err(NetError::InvalidInput));
}

#[test]
fn from_addr_classifies_v4() {
    assert_eq!(IpVersionMode::from_addr("192.168.0.1:0"), Ok(IpVersionMode::V4Only));
}

#[test]
fn from_addr_classifies_v6() {
    assert_eq!(IpVersionMode::from_addr("[::1]:0"), Ok(IpVersionMode::V6Only));
}

#[test]
fn from_addr_rejects_bare_ip() {
    assert_eq!(IpVersionMode::from_addr("::1"), Err(NetError::InvalidInput));
}

#[test]
fn bind_reuse_enables_both_where_supported() {
    let plan = bind_reuse("0.0.0.0:1900", true).unwrap();
    assert!(plan.reuse_address);
    assert!(plan.reuse_port);
    assert_eq!(plan.local, v4(0, 0, 0, 0, 1900));
}

#[test]
fn bind_reuse_omits_port_reuse_where_unsupported() {
    let plan = bind_reuse("[::]:1900", false).unwrap();
    assert!(plan.reuse_address);
    assert!(!plan.reuse_port);
    assert_eq!(plan.local, v6([0, 0, 0, 0, 0, 0, 0, 0], 1900, 0, 0));
}

#[test]
fn bind_reuse_rejects_bad_literal() {
    assert_eq!(bind_reuse("upnp.local:1900", true), Err(NetError::InvalidInput));
}

#[test]
fn join_multicast_v4_uses_interface_ip() {
    let iface = v4(192, 168, 0, 9, 1900);
    let group = IpAddress::V4(Ipv4Address { o0: 239, o1: 255, o2: 255, o3: 250 });
    assert_eq!(
        join_multicast(&iface, &group),
        Ok(MulticastOp::V4 {
            group: Ipv4Address { o0: 239, o1: 255, o2: 255, o3: 250 },
            interface_ip: Ipv4Address { o0: 192, o1: 168, o2: 0, o3: 9 },
        })
    );
}

#[test]
fn join_multicast_v6_uses_scope_id_not_ip() {
    let iface = v6([0xfe80, 0, 0, 0, 0, 0, 0, 1], 1900, 0, 5);
    let group_ip = v6_ip([0xff02, 0, 0, 0, 0, 0, 0, 0xc]);
    let group = IpAddress::V6(group_ip);
    assert_eq!(
        join_multicast(&iface, &group),
        Ok(MulticastOp::V6 { group: group_ip, scope_id: 5 })
    );
}

#[test]
fn join_multicast_rejects_mixed_families() {
    let iface = v4(192, 168, 0, 9, 1900);
    let group = IpAddress::V6(v6_ip([0xff02, 0, 0, 0, 0, 0, 0, 0xc]));
    assert_eq!(join_multicast(&iface, &group), Err(NetError::InvalidInput));

    let iface6 = v6([0xfe80, 0, 0, 0, 0, 0, 0, 1], 1900, 0, 5);
    let group4 = IpAddress::V4(Ipv4Address { o0: 239, o1: 255, o2: 255, o3: 250 });
    assert_eq!(join_multicast(&iface6, &group4), Err(NetError::InvalidInput));
}

#[test]
fn leave_multicast_drops_group_port_and_uses_scope_id() {
    let iface = v6([0xfe80, 0, 0, 0, 0, 0, 0, 1], 1900, 0, 7);
    let group = v6([0xff02, 0, 0, 0, 0, 0, 0, 0xc], 1900, 0, 0);
    assert_eq!(
        leave_multicast(&iface, &group),
        Ok(MulticastOp::V6 { group: v6_ip([0xff02, 0, 0, 0, 0, 0, 0, 0xc]), scope_id: 7 })
    );
}

#[test]
fn leave_multicast_rejects_mixed_families() {
    let iface = v4(192, 168, 0, 9, 1900);
    let group = v6([0xff02, 0, 0, 0, 0, 0, 0, 0xc], 1900, 0, 0);
    assert_eq!(leave_multicast(&iface, &group), Err(NetError::InvalidInput));
}

#[test]
fn connect_v4_builds_host_port_exactly() {
    let c = UdpConnector::new(v4(127, 0, 0, 1, 0), None);
    assert_eq!(c.connect("10.0.0.5", 99), Ok(v4(10, 0, 0, 5, 99)));
}

#[test]
fn connect_v4_rejects_hostname() {
    let c = UdpConnector::new(v4(127, 0, 0, 1, 0), None);
    assert_eq!(c.connect("example.com", 80), Err(NetError::InvalidInput));
}

#[test]
fn connect_v6_preserves_local_scope_and_flow() {
    let c = UdpConnector::new(v6([0xfe80, 0, 0, 0, 0, 0, 0, 2], 0, 9, 7), None);
    assert_eq!(c.connect("::1", 80), Ok(v6([0, 0, 0, 0, 0, 0, 0, 1], 80, 9, 7)));
}

#[test]
fn connect_v6_overrides_scope_from_host_text() {
    let c = UdpConnector::new(v6([0xfe80, 0, 0, 0, 0, 0, 0, 2], 0, 9, 7), None);
    assert_eq!(
        c.connect("[fe80::1%99]", 80),
        Ok(v6([0xfe80, 0, 0, 0, 0, 0, 0, 1], 80, 9, 7))
    );
}

#[test]
fn connect_v6_accepts_bare_and_bracketed_host_alike() {
    let c = UdpConnector::new(v6([0, 0, 0, 0, 0, 0, 0, 1], 0, 0, 0), None);
    let bare = c.connect("::1", 1900);
    let bracketed = c.connect("[::1]", 1900);
    assert_eq!(bare, bracketed);
    assert_eq!(bare, Ok(v6([0, 0, 0, 0, 0, 0, 0, 1], 1900, 0, 0)));
}

#[test]
fn connect_v6_full_form_host() {
    let c = UdpConnector::new(v6([0xfe80, 0, 0, 0, 0, 0, 0, 2], 0, 3, 4), None);
    assert_eq!(
        c.connect("1:2:3:4:5:6:7:8", 80),
        Ok(v6([1, 2, 3, 4, 5, 6, 7, 8], 80, 3, 4))
    );
}

#[test]
fn connect_v6_rejects_malformed_host() {
    let c = UdpConnector::new(v6([0, 0, 0, 0, 0, 0, 0, 1], 0, 0, 0), None);
    assert_eq!(c.connect("fe80::1%x", 80), Err(NetError::InvalidInput));
    assert_eq!(c.connect("1.2.3.4", 80), Err(NetError::InvalidInput));
}

#[test]
fn connector_reports_and_releases_bound_address() {
    let local = v6([0xfe80, 0, 0, 0, 0, 0, 0, 2], 1900, 0, 4);
    let c = UdpConnector::new(local, Some(4));
    assert_eq!(c.local_addr(), local);
    assert_eq!(c.deconstruct(), local);
}
