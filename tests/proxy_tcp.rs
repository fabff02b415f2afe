use snocat::protocol::ServiceError;
use snocat::proxy_tcp::{
    connect_failure, DnsTarget, SocketAddress, TcpConnectError, TcpStreamClient, TcpStreamService,
    TcpStreamTarget, TcpStreamTargetParseError,
};

fn v4(a: u8, b: u8, c: u8, d: u8, port: u16) -> SocketAddress {
    SocketAddress::V4 { octets: [a, b, c, d], port }
}

fn v6_loopback(port: u16) -> SocketAddress {
    SocketAddress::V6 { segments: [0, 0, 0, 0, 0, 0, 0, 1], port }
}

#[test]
fn parse_port_shorthand() {
    assert_eq!(TcpStreamTarget::parse("/tcp/7878"), Ok(TcpStreamTarget::Port(7878)));
    assert_eq!(TcpStreamTarget::parse("/tcp/+80"), Ok(TcpStreamTarget::Port(80)));
    assert_eq!(TcpStreamTarget::parse("/tcp/0080"), Ok(TcpStreamTarget::Port(80)));
    assert_eq!(TcpStreamTarget::parse("/tcp/65535"), Ok(TcpStreamTarget::Port(65535)));
    assert_eq!("/tcp/22".parse::<TcpStreamTarget>(), Ok(TcpStreamTarget::Port(22)));
}

#[test]
fn parse_ip_targets() {
    assert_eq!(
        TcpStreamTarget::parse("/ip4/127.0.0.1/tcp/7878"),
        Ok(TcpStreamTarget::SocketAddr(v4(127, 0, 0, 1, 7878)))
    );
    assert_eq!(
        TcpStreamTarget::parse("/ip6/0:0:0:0:0:0:0:1/tcp/22"),
        Ok(TcpStreamTarget::SocketAddr(v6_loopback(22)))
    );
    assert_eq!(
        TcpStreamTarget::parse("/ip6/2001:DB8:0:0:0:0:ff00:42/tcp/443"),
        Ok(TcpStreamTarget::SocketAddr(SocketAddress::V6 {
            segments: [0x2001, 0xdb8, 0, 0, 0, 0, 0xff00, 0x42],
            port: 443
        }))
    );
}

#[test]
fn parse_dns_targets() {
    assert_eq!(
        TcpStreamTarget::parse("/dns/example.com/tcp/443"),
        Ok(TcpStreamTarget::Dns(DnsTarget::PreferHigher { host: "example.com".to_string(), port: 443 }))
    );
    assert_eq!(
        TcpStreamTarget::parse("/dns4/example.com/tcp/80"),
        Ok(TcpStreamTarget::Dns(DnsTarget::Dns4 { host: "example.com".to_string(), port: 80 }))
    );
    assert_eq!(
        TcpStreamTarget::parse("/dns6/example.com/tcp/80"),
        Ok(TcpStreamTarget::Dns(DnsTarget::Dns6 { host: "example.com".to_string(), port: 80 }))
    );
}

#[test]
fn parse_errors() {
    assert_eq!(TcpStreamTarget::parse(""), Err(TcpStreamTargetParseError::TooFewSegments));
    assert_eq!(TcpStreamTarget::parse("tcp/80"), Err(TcpStreamTargetParseError::InvalidPrefix));
    assert_eq!(TcpStreamTarget::parse("/"), Err(TcpStreamTargetParseError::InvalidPort));
    assert_eq!(TcpStreamTarget::parse("/tcp/abc"), Err(TcpStreamTargetParseError::InvalidPort));
    assert_eq!(TcpStreamTarget::parse("/tcp/65536"), Err(TcpStreamTargetParseError::InvalidPort));
    assert_eq!(TcpStreamTarget::parse("/tcp/-1"), Err(TcpStreamTargetParseError::InvalidPort));
    assert_eq!(TcpStreamTarget::parse("/a/b/c/d/e"), Err(TcpStreamTargetParseError::InvalidPort));
    assert_eq!(TcpStreamTarget::parse("/udp/80"), Err(TcpStreamTargetParseError::NoMatchingFormat));
    assert_eq!(
        TcpStreamTarget::parse("/ip4/1.2.3.4/udp/80"),
        Err(TcpStreamTargetParseError::NoMatchingFormat)
    );
    assert_eq!(TcpStreamTarget::parse("/ip4/1.2.3/tcp/80"), Err(TcpStreamTargetParseError::InvalidIP));
    assert_eq!(TcpStreamTarget::parse("/ip4/01.2.3.4/tcp/80"), Err(TcpStreamTargetParseError::InvalidIP));
    assert_eq!(TcpStreamTarget::parse("/ip4/256.2.3.4/tcp/80"), Err(TcpStreamTargetParseError::InvalidIP));
    assert_eq!(TcpStreamTarget::parse("/ip6/0:0:1/tcp/80"), Err(TcpStreamTargetParseError::InvalidIP));
    assert_eq!(
        TcpStreamTarget::parse("/ip6/0:0:0:0:0:0:0:10000/tcp/80"),
        Err(TcpStreamTargetParseError::InvalidIP)
    );
}

#[test]
fn format_each_shape() {
    assert_eq!(TcpStreamTarget::Port(7878).to_string(), "/tcp/7878");
    assert_eq!(
        TcpStreamTarget::SocketAddr(v4(127, 0, 0, 1, 7878)).to_string(),
        "/ip4/127.0.0.1/tcp/7878"
    );
    assert_eq!(
        TcpStreamTarget::SocketAddr(SocketAddress::V6 {
            segments: [0x2001, 0xdb8, 0, 0, 0, 0, 0xff00, 0x42],
            port: 443
        })
        .to_string(),
        "/ip6/2001:db8::ff00:42/tcp/443"
    );
    assert_eq!(
        TcpStreamTarget::Dns(DnsTarget::Dns6 { host: "h.example".to_string(), port: 0 }).to_string(),
        "/dns6/h.example/tcp/0"
    );
    assert_eq!(
        TcpStreamClient::<(), ()>::build_addr(TcpStreamTarget::Dns(DnsTarget::PreferHigher {
            host: "example.com".to_string(),
            port: 443
        })),
        "/dns/example.com/tcp/443"
    );
}

#[test]
fn parse_format_round_trip() {
    let targets = vec![
        TcpStreamTarget::Port(0),
        TcpStreamTarget::Port(65535),
        TcpStreamTarget::SocketAddr(v4(0, 0, 0, 0, 1)),
        TcpStreamTarget::SocketAddr(v4(255, 255, 255, 255, 65535)),
        TcpStreamTarget::SocketAddr(v4(10, 1, 100, 9, 8080)),
        TcpStreamTarget::SocketAddr(SocketAddress::V6 {
            segments: [0xffff, 0, 0xabcd, 1, 0x10, 0x100, 0x1000, 7],
            port: 22,
        }),
        TcpStreamTarget::Dns(DnsTarget::PreferHigher { host: "example.com".to_string(), port: 443 }),
        TcpStreamTarget::Dns(DnsTarget::Dns4 { host: "".to_string(), port: 80 }),
        TcpStreamTarget::Dns(DnsTarget::Dns6 { host: "a.b".to_string(), port: 9 }),
    ];
    for t in targets {
        assert_eq!(TcpStreamTarget::parse(&t.to_string()), Ok(t.clone()));
    }
}

#[test]
fn dns_target_families_and_port() {
    let any = DnsTarget::PreferHigher { host: "h".to_string(), port: 5 };
    let four = DnsTarget::Dns4 { host: "h".to_string(), port: 5 };
    let six = DnsTarget::Dns6 { host: "h".to_string(), port: 5 };
    assert!(any.includes_ipv4() && any.includes_ipv6());
    assert!(four.includes_ipv4() && !four.includes_ipv6());
    assert!(!six.includes_ipv4() && six.includes_ipv6());
    assert_eq!(four.port(), Some(5));
    assert!(four.contains(&v4(1, 2, 3, 4, 5), true));
    assert!(!four.contains(&v4(1, 2, 3, 4, 6), true));
    assert!(four.contains(&v4(1, 2, 3, 4, 6), false));
    assert!(!four.contains(&v6_loopback(5), true));
    assert!(six.contains(&v6_loopback(5), true));
    assert!(any.contains(&v6_loopback(5), true));
}

#[test]
fn service_accepts_tcp_targets_only() {
    let svc = TcpStreamService::new(false);
    assert!(svc.accepts(&"/tcp/22".to_string(), &5));
    assert!(svc.accepts(&"/dns/example.com/tcp/80".to_string(), &5));
    assert!(!svc.accepts(&"/udp/22".to_string(), &5));
    assert!(!svc.accepts(&"hello".to_string(), &5));
}

#[test]
fn fixed_resolution() {
    let svc = TcpStreamService::new(false);
    assert_eq!(
        svc.resolve_fixed(TcpStreamTarget::Port(7878)),
        Ok(vec![v6_loopback(7878), v4(127, 0, 0, 1, 7878)])
    );
    assert_eq!(
        svc.resolve_fixed(TcpStreamTarget::SocketAddr(v4(10, 0, 0, 1, 80))),
        Ok(vec![v4(10, 0, 0, 1, 80)])
    );
    let d = DnsTarget::Dns4 { host: "example.com".to_string(), port: 80 };
    assert_eq!(svc.resolve_fixed(TcpStreamTarget::Dns(d.clone())), Err(d));
}

#[test]
fn resolved_addresses_are_filtered_by_family_and_port() {
    let found = vec![v4(1, 1, 1, 1, 80), v6_loopback(80), v4(2, 2, 2, 2, 81), v4(3, 3, 3, 3, 80)];
    let four = DnsTarget::Dns4 { host: "h".to_string(), port: 80 };
    assert_eq!(
        TcpStreamService::filter_resolved(&four, &found),
        vec![v4(1, 1, 1, 1, 80), v4(3, 3, 3, 3, 80)]
    );
    let six = DnsTarget::Dns6 { host: "h".to_string(), port: 80 };
    assert_eq!(TcpStreamService::filter_resolved(&six, &found), vec![v6_loopback(80)]);
}

#[test]
fn connect_address_selection() {
    let open = TcpStreamService::new(false);
    let local = TcpStreamService::new(true);
    assert_eq!(open.select_connect_addresses(&vec![]), Err(TcpConnectError::ConnectionFailed));
    assert_eq!(
        local.select_connect_addresses(&vec![]),
        Err(TcpConnectError::NoLoopbackAddressesFound)
    );
    let remote = vec![v4(8, 8, 8, 8, 53)];
    assert_eq!(open.select_connect_addresses(&remote), Ok(remote.clone()));
    assert_eq!(
        local.select_connect_addresses(&remote),
        Err(TcpConnectError::NoLoopbackAddressesFound)
    );
    let mixed = vec![v4(8, 8, 8, 8, 53), v6_loopback(53), v4(127, 1, 2, 3, 53)];
    assert_eq!(
        local.select_connect_addresses(&mixed),
        Ok(vec![v6_loopback(53), v4(127, 1, 2, 3, 53)])
    );
}

#[test]
fn connect_failures_map_to_service_errors() {
    assert!(matches!(connect_failure(TcpConnectError::ConnectionFailed), ServiceError::DependencyFailure));
    assert!(matches!(
        connect_failure(TcpConnectError::NoLoopbackAddressesFound),
        ServiceError::AddressError
    ));
}

#[test]
fn loopback_detection() {
    assert!(v4(127, 0, 0, 1, 1).is_loopback());
    assert!(v4(127, 9, 9, 9, 1).is_loopback());
    assert!(!v4(128, 0, 0, 1, 1).is_loopback());
    assert!(v6_loopback(1).is_loopback());
    assert!(!SocketAddress::V6 { segments: [0, 0, 0, 0, 0, 0, 0, 2], port: 1 }.is_loopback());
}

#[test]
fn parse_compressed_ipv6() {
    assert_eq!(
        TcpStreamTarget::parse("/ip6/::1/tcp/22"),
        Ok(TcpStreamTarget::SocketAddr(v6_loopback(22)))
    );
    assert_eq!(
        TcpStreamTarget::parse("/ip6/::/tcp/22"),
        Ok(TcpStreamTarget::SocketAddr(SocketAddress::V6 { segments: [0; 8], port: 22 }))
    );
    assert_eq!(
        TcpStreamTarget::parse("/ip6/2001:db8::ff00:42/tcp/443"),
        Ok(TcpStreamTarget::SocketAddr(SocketAddress::V6 {
            segments: [0x2001, 0xdb8, 0, 0, 0, 0, 0xff00, 0x42],
            port: 443
        }))
    );
    assert_eq!(
        TcpStreamTarget::parse("/ip6/1:2:3:4:5:6:7::/tcp/1"),
        Ok(TcpStreamTarget::SocketAddr(SocketAddress::V6 { segments: [1, 2, 3, 4, 5, 6, 7, 0], port: 1 }))
    );
    assert_eq!(
        TcpStreamTarget::parse("/ip6/fe80::/tcp/1"),
        Ok(TcpStreamTarget::SocketAddr(SocketAddress::V6 { segments: [0xfe80, 0, 0, 0, 0, 0, 0, 0], port: 1 }))
    );
}

#[test]
fn reject_malformed_compressed_ipv6() {
    assert_eq!(TcpStreamTarget::parse("/ip6/1::2::3/tcp/1"), Err(TcpStreamTargetParseError::InvalidIP));
    assert_eq!(TcpStreamTarget::parse("/ip6/:::1/tcp/1"), Err(TcpStreamTargetParseError::InvalidIP));
    assert_eq!(
        TcpStreamTarget::parse("/ip6/1:2:3:4:5:6:7:8::/tcp/1"),
        Err(TcpStreamTargetParseError::InvalidIP)
    );
    assert_eq!(TcpStreamTarget::parse("/ip6/1::g/tcp/1"), Err(TcpStreamTargetParseError::InvalidIP));
    assert_eq!(TcpStreamTarget::parse("/ip6/:1/tcp/1"), Err(TcpStreamTargetParseError::InvalidIP));
}

#[test]
fn parse_ipv6_with_ipv4_tail() {
    assert_eq!(
        TcpStreamTarget::parse("/ip6/::ffff:192.168.1.2/tcp/80"),
        Ok(TcpStreamTarget::SocketAddr(SocketAddress::V6 {
            segments: [0, 0, 0, 0, 0, 0xffff, 0xc0a8, 0x0102],
            port: 80
        }))
    );
    assert_eq!(
        TcpStreamTarget::parse("/ip6/1:2:3:4:5:6:1.2.3.4/tcp/80"),
        Ok(TcpStreamTarget::SocketAddr(SocketAddress::V6 {
            segments: [1, 2, 3, 4, 5, 6, 0x0102, 0x0304],
            port: 80
        }))
    );
    assert_eq!(TcpStreamTarget::parse("/ip6/1.2.3.4::/tcp/80"), Err(TcpStreamTargetParseError::InvalidIP));
    assert_eq!(TcpStreamTarget::parse("/ip6/::1.2.3.4:5/tcp/80"), Err(TcpStreamTargetParseError::InvalidIP));
    assert_eq!(
        TcpStreamTarget::parse("/ip6/1:2:3:4:5:6:7:1.2.3.4/tcp/80"),
        Err(TcpStreamTargetParseError::InvalidIP)
    );
}

#[test]
fn ipv6_text_compresses_longest_zero_run() {
    let cases: Vec<([u16; 8], &str)> = vec![
        ([0, 0, 0, 0, 0, 0, 0, 1], "::1"),
        ([0, 0, 0, 0, 0, 0, 0, 0], "::"),
        ([1, 0, 2, 3, 4, 5, 6, 7], "1:0:2:3:4:5:6:7"),
        ([1, 0, 0, 2, 0, 0, 3, 4], "1::2:0:0:3:4"),
        ([1, 0, 0, 2, 0, 0, 0, 4], "1:0:0:2::4"),
        ([0xfe80, 0, 0, 0, 0x1ff, 0xfe23, 0x4567, 0x890a], "fe80::1ff:fe23:4567:890a"),
        ([0, 0, 0, 0, 0, 0xffff, 0xc0a8, 0x0102], "::ffff:192.168.1.2"),
        ([0, 0, 0, 0, 0, 0, 0xc0a8, 0x0102], "::c0a8:102"),
        ([0xffff; 8], "ffff:ffff:ffff:ffff:ffff:ffff:ffff:ffff"),
        ([1, 2, 3, 4, 5, 6, 7, 0], "1:2:3:4:5:6:7:0"),
        ([0, 0, 1, 2, 3, 4, 0, 0], "::1:2:3:4:0:0"),
    ];
    for (segments, text) in cases {
        let target = TcpStreamTarget::SocketAddr(SocketAddress::V6 { segments, port: 8080 });
        let expected = format!("/ip6/{}/tcp/8080", text);
        assert_eq!(target.to_string(), expected);
        assert_eq!(TcpStreamTarget::parse(&expected), Ok(target));
    }
}

#[test]
fn service_target_maps_unreadable_addresses_to_address_error() {
    assert_eq!(
        TcpStreamService::service_target(&"/tcp/80".to_string()).ok(),
        Some(TcpStreamTarget::Port(80))
    );
    assert!(matches!(
        TcpStreamService::service_target(&"/udp/80".to_string()),
        Err(ServiceError::AddressError)
    ));
    assert!(matches!(
        TcpStreamService::resolution_failure(snocat::proxy_tcp::TargetResolutionError::IOError(
            "no such host".to_string()
        )),
        ServiceError::AddressError
    ));
}

#[test]
fn from_str_reads_literal_addresses() {
    assert_eq!(
        "/ip4/10.0.0.1/tcp/22".parse::<TcpStreamTarget>(),
        Ok(TcpStreamTarget::SocketAddr(v4(10, 0, 0, 1, 22)))
    );
    assert_eq!("/ip6/::1/tcp/80".parse::<TcpStreamTarget>(), Ok(TcpStreamTarget::SocketAddr(v6_loopback(80))));
    assert_eq!(
        "/dns4/example.com/tcp/443".parse::<TcpStreamTarget>(),
        Ok(TcpStreamTarget::Dns(DnsTarget::Dns4 { host: "example.com".to_string(), port: 443 }))
    );
    assert_eq!(
        "/dns/h/tcp/1".parse::<TcpStreamTarget>(),
        Ok(TcpStreamTarget::Dns(DnsTarget::PreferHigher { host: "h".to_string(), port: 1 }))
    );
    assert_eq!("/tcp/7878".parse::<TcpStreamTarget>(), Ok(TcpStreamTarget::Port(7878)));
    assert_eq!("".parse::<TcpStreamTarget>(), Err(TcpStreamTargetParseError::TooFewSegments));
    assert_eq!("tcp/80".parse::<TcpStreamTarget>(), Err(TcpStreamTargetParseError::InvalidPrefix));
    assert_eq!("/tcp/70000".parse::<TcpStreamTarget>(), Err(TcpStreamTargetParseError::InvalidPort));
    assert_eq!("/ip4/x/tcp/1".parse::<TcpStreamTarget>(), Err(TcpStreamTargetParseError::InvalidIP));
    assert_eq!("/udp/53".parse::<TcpStreamTarget>(), Err(TcpStreamTargetParseError::NoMatchingFormat));
}

#[test]
fn from_str_reads_back_written_targets() {
    let targets = vec![
        TcpStreamTarget::Port(0),
        TcpStreamTarget::Port(65535),
        TcpStreamTarget::SocketAddr(v4(192, 168, 0, 1, 80)),
        TcpStreamTarget::SocketAddr(SocketAddress::V6 { segments: [0xfe80, 0, 0, 0, 0, 0, 0, 1], port: 9 }),
        TcpStreamTarget::Dns(DnsTarget::Dns6 { host: "example.org".to_string(), port: 53 }),
    ];
    for t in targets {
        assert_eq!(t.to_string().parse::<TcpStreamTarget>(), Ok(t.clone()));
    }
}
