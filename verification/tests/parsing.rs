use ipset_lookup::parse_ipv4;
use ipset_lookup::parse_network;
use ipset_lookup::Ipv4Addr;

#[test]
fn parses_plain_addresses() {
    assert_eq!(parse_ipv4("0.0.0.0"), Some(Ipv4Addr { bits: 0 }));
    assert_eq!(parse_ipv4("255.255.255.255"), Some(Ipv4Addr { bits: 0xFFFF_FFFF }));
    assert_eq!(parse_ipv4("1.2.3.4"), Some(Ipv4Addr { bits: 0x0102_0304 }));
    assert_eq!(parse_ipv4("8.8.8.8"), Some(Ipv4Addr { bits: 0x0808_0808 }));
    assert_eq!(parse_ipv4("192.168.0.1"), Some(Ipv4Addr { bits: 0xC0A8_0001 }));
}

#[test]
fn rejects_malformed_addresses() {
    assert_eq!(parse_ipv4(""), None);
    assert_eq!(parse_ipv4("1.2.3"), None);
    assert_eq!(parse_ipv4("1.2.3.4.5"), None);
    assert_eq!(parse_ipv4("999.999.999.999"), None);
    assert_eq!(parse_ipv4("256.0.0.1"), None);
    assert_eq!(parse_ipv4("01.2.3.4"), None);
    assert_eq!(parse_ipv4("1.2.3.04"), None);
    assert_eq!(parse_ipv4("1..2.3"), None);
    assert_eq!(parse_ipv4("1.2.3.4 "), None);
    assert_eq!(parse_ipv4("a.b.c.d"), None);
    assert_eq!(parse_ipv4("1.2.3.-4"), None);
}

#[test]
fn parses_networks() {
    let n = parse_network("1.2.3.0/24").unwrap();
    assert_eq!(n.addr, Ipv4Addr { bits: 0x0102_0300 });
    assert_eq!(n.prefix, 24);
    let all = parse_network("0.0.0.0/0").unwrap();
    assert_eq!(all.prefix, 0);
    let host = parse_network("9.9.9.9/32").unwrap();
    assert_eq!(host.prefix, 32);
}

#[test]
fn rejects_malformed_networks() {
    assert_eq!(parse_network("1.2.3.0"), None);
    assert_eq!(parse_network("1.2.3.0/"), None);
    assert_eq!(parse_network("/24"), None);
    assert_eq!(parse_network("1.2.3.0/33"), None);
    assert_eq!(parse_network("1.2.3.0/100"), None);
    assert_eq!(parse_network("1.2.3.0/08"), None);
    assert_eq!(parse_network("1.2.3.0/24/8"), None);
    assert_eq!(parse_network("999.0.0.0/8"), None);
    assert_eq!(parse_network("1.2.3.0/ 8"), None);
}
