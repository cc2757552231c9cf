use krrr::addr::{parse_port, resolve_addr, resolve_ip, resolve_port, AddrError, DEFAULT_PORT};
use krrr::ip::{parse_ip, parse_ipv4, parse_ipv6, IpAddr, Ipv4};

fn v4(a: u8, b: u8, c: u8, d: u8) -> IpAddr {
    IpAddr::V4(Ipv4 { a, b, c, d })
}

#[test]
fn port_override_is_parsed() {
    assert_eq!(resolve_port(Some("9999")), Ok(9999));
}

#[test]
fn port_override_must_be_numeric() {
    assert_eq!(resolve_port(Some("http")), Err(AddrError::BadPortOverride));
    assert_eq!(resolve_port(Some("")), Err(AddrError::BadPortOverride));
    assert_eq!(resolve_port(Some("12x4")), Err(AddrError::BadPortOverride));
}

#[test]
fn port_override_must_fit_sixteen_bits() {
    assert_eq!(resolve_port(Some("65535")), Ok(65535));
    assert_eq!(resolve_port(Some("65536")), Err(AddrError::BadPortOverride));
    assert_eq!(resolve_port(Some("99999999999999999999")), Err(AddrError::BadPortOverride));
}

#[test]
fn port_defaults_without_override() {
    assert_eq!(resolve_port(None), Ok(42271));
    assert_eq!(DEFAULT_PORT, 42271);
}

#[test]
fn ip_override_wins_over_discovery() {
    let discovered = Some(v4(192, 168, 1, 20));
    assert_eq!(resolve_ip(Some("10.0.0.5"), discovered), Ok(v4(10, 0, 0, 5)));
}

#[test]
fn ip_discovery_applies_without_override() {
    let discovered = Some(v4(192, 168, 1, 20));
    assert_eq!(resolve_ip(None, discovered), Ok(v4(192, 168, 1, 20)));
}

#[test]
fn ip_resolution_fails_without_any_source() {
    assert_eq!(resolve_ip(None, None), Err(AddrError::NoLocalIp));
}

#[test]
fn ip_override_must_be_valid() {
    assert_eq!(resolve_ip(Some("not-an-ip"), None), Err(AddrError::BadIpOverride));
    assert_eq!(
        resolve_ip(Some("10.0.0.5"), None).is_ok(),
        true,
    );
}

#[test]
fn ipv4_parses_dotted_decimal() {
    assert_eq!(parse_ipv4("10.0.0.5"), Some(Ipv4 { a: 10, b: 0, c: 0, d: 5 }));
    assert_eq!(parse_ipv4("255.255.255.255"), Some(Ipv4 { a: 255, b: 255, c: 255, d: 255 }));
    assert_eq!(parse_ipv4("0.0.0.0"), Some(Ipv4 { a: 0, b: 0, c: 0, d: 0 }));
}

#[test]
fn ipv4_rejects_malformed_addresses() {
    assert_eq!(parse_ipv4("10.0.0"), None);
    assert_eq!(parse_ipv4("10.0.0.5.6"), None);
    assert_eq!(parse_ipv4("256.0.0.1"), None);
    assert_eq!(parse_ipv4("01.0.0.1"), None);
    assert_eq!(parse_ipv4("10.0..5"), None);
    assert_eq!(parse_ipv4("10.0.0.5 "), None);
    assert_eq!(parse_ipv4(""), None);
}

#[test]
fn ipv6_parses_full_form() {
    let v = parse_ipv6("2001:db8:0:0:8:800:200c:417a").unwrap();
    assert_eq!(v.groups, vec![0x2001, 0xdb8, 0, 0, 8, 0x800, 0x200c, 0x417a]);
}

#[test]
fn ipv6_parses_abbreviated_forms() {
    assert_eq!(parse_ipv6("::").unwrap().groups, vec![0, 0, 0, 0, 0, 0, 0, 0]);
    assert_eq!(parse_ipv6("::1").unwrap().groups, vec![0, 0, 0, 0, 0, 0, 0, 1]);
    assert_eq!(parse_ipv6("fe80::").unwrap().groups, vec![0xfe80, 0, 0, 0, 0, 0, 0, 0]);
    assert_eq!(parse_ipv6("1:2:3:4:5:6:7::").unwrap().groups, vec![1, 2, 3, 4, 5, 6, 7, 0]);
    assert_eq!(
        parse_ipv6("2001:db8::8:800:200c:417a").unwrap().groups,
        vec![0x2001, 0xdb8, 0, 0, 8, 0x800, 0x200c, 0x417a]
    );
}

#[test]
fn ipv6_parses_embedded_ipv4_tails() {
    assert_eq!(
        parse_ipv6("::ffff:192.168.1.1").unwrap().groups,
        vec![0, 0, 0, 0, 0, 0xffff, 0xc0a8, 0x0101]
    );
    assert_eq!(
        parse_ipv6("1:2:3:4:5:6:7.8.9.10").unwrap().groups,
        vec![1, 2, 3, 4, 5, 6, 0x0708, 0x090a]
    );
    assert_eq!(parse_ipv6("::1.2.3.4").unwrap().groups, vec![0, 0, 0, 0, 0, 0, 0x0102, 0x0304]);
}

#[test]
fn ipv6_rejects_malformed_embedded_tails() {
    assert_eq!(parse_ipv6("1.2.3.4"), None);
    assert_eq!(parse_ipv6("1.2.3.4::"), None);
    assert_eq!(parse_ipv6("::1.2.3.256"), None);
    assert_eq!(parse_ipv6("::1.2.3.4:5"), None);
    assert_eq!(parse_ipv6("1:2:3:4:5:6:7:1.2.3.4"), None);
}

#[test]
fn ipv6_rejects_malformed_addresses() {
    assert_eq!(parse_ipv6("1:2:3:4:5:6:7"), None);
    assert_eq!(parse_ipv6("1:2:3:4:5:6:7:8:9"), None);
    assert_eq!(parse_ipv6("1:2:3:4:5:6:7:8::"), None);
    assert_eq!(parse_ipv6(":::"), None);
    assert_eq!(parse_ipv6("1:::2"), None);
    assert_eq!(parse_ipv6("1::2::3"), None);
    assert_eq!(parse_ipv6(":1:2:3:4:5:6:7"), None);
    assert_eq!(parse_ipv6("12345::"), None);
    assert_eq!(parse_ipv6("g::1"), None);
    assert_eq!(parse_ipv6(""), None);
}

#[test]
fn parse_ip_tries_both_families() {
    assert_eq!(parse_ip("10.0.0.5"), Some(v4(10, 0, 0, 5)));
    assert!(matches!(parse_ip("::1"), Some(IpAddr::V6(_))));
    assert_eq!(parse_ip("10.0.0.5:80"), None);
    assert_eq!(parse_ip("localhost"), None);
}

#[test]
fn addr_combines_both_sources() {
    let a = resolve_addr(Some("10.0.0.5"), None, Some("9999")).unwrap();
    assert_eq!(a.ip, v4(10, 0, 0, 5));
    assert_eq!(a.port, 9999);

    let b = resolve_addr(None, Some(v4(192, 168, 1, 20)), None).unwrap();
    assert_eq!(b.ip, v4(192, 168, 1, 20));
    assert_eq!(b.port, 42271);
}

#[test]
fn addr_ip_failure_wins_over_port_failure() {
    assert_eq!(resolve_addr(Some("bad"), None, Some("bad")), Err(AddrError::BadIpOverride));
    assert_eq!(resolve_addr(None, None, Some("bad")), Err(AddrError::NoLocalIp));
    assert_eq!(
        resolve_addr(Some("10.0.0.5"), None, Some("bad")),
        Err(AddrError::BadPortOverride)
    );
}

#[test]
fn standalone_port_parser_matches_resolution() {
    assert_eq!(parse_port("9999"), Some(9999));
    assert_eq!(parse_port("0"), Some(0));
    assert_eq!(parse_port("0042"), Some(42));
    assert_eq!(parse_port("-1"), None);
    assert_eq!(parse_port("6553e"), None);
}

#[test]
fn port_accepts_one_leading_plus_sign() {
    assert_eq!(parse_port("+9999"), Some(9999));
    assert_eq!(parse_port("+0"), Some(0));
    assert_eq!(parse_port("+"), None);
    assert_eq!(parse_port("++9"), None);
    assert_eq!(parse_port("9+9"), None);
    assert_eq!(resolve_port(Some("+8080")), Ok(8080));
}
