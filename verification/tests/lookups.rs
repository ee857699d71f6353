use ipset_lookup::parse_ipv4;
use ipset_lookup::parse_network;
use ipset_lookup::Ipv4Addr;
use ipset_lookup::Ipv4Network;
use ipset_lookup::Lookup;

#[test]
fn mod_test_lookups() {
    let mut ips: Vec<Ipv4Addr> = Vec::new();
    ips.insert(0, parse_ipv4("8.8.8.8").unwrap());
    let mut nets: Vec<Ipv4Network> = Vec::new();
    nets.insert(0, parse_network("8.8.8.8/8").unwrap());
    let ip: Ipv4Addr = parse_ipv4("8.8.8.8").unwrap();
    let ip2: Ipv4Addr = parse_ipv4("1.1.1.1").unwrap();
    let net: Ipv4Network = parse_network("8.8.8.8/8").unwrap();
    let net2: Ipv4Network = parse_network("1.1.1.1/8").unwrap();

    assert!(ips.lookup_by_ip(ip), "ips - lookup_by_ip is not eq");
    assert!(!ips.lookup_by_ip(ip2), "ips - lookup_by_ip is not neq");
    assert!(ips.lookup_by_net(net), "ips - lookup_by_net is not eq");
    assert!(!ips.lookup_by_net(net2), "ips - lookup_by_net is not neq");

    assert!(nets.lookup_by_ip(ip), "nets - lookup_by_ip is not eq");
    assert!(nets.lookup_by_net(net), "nets - lookup_by_net is not eq");
    assert!(!nets.lookup_by_ip(ip2), "nets - lookup_by_ip is not neq");
    assert!(!nets.lookup_by_net(net2), "nets - lookup_by_net is not neq");
}

#[test]
fn network_contains_and_overlaps() {
    let net = parse_network("1.2.3.0/24").unwrap();
    assert!(net.contains(parse_ipv4("1.2.3.0").unwrap()));
    assert!(net.contains(parse_ipv4("1.2.3.4").unwrap()));
    assert!(net.contains(parse_ipv4("1.2.3.255").unwrap()));
    assert!(!net.contains(parse_ipv4("1.2.4.0").unwrap()));
    assert!(!net.contains(parse_ipv4("1.2.2.255").unwrap()));

    // a base with host bits set covers the aligned block around it
    let loose = parse_network("8.8.8.8/8").unwrap();
    assert!(loose.contains(parse_ipv4("8.0.0.0").unwrap()));
    assert!(loose.contains(parse_ipv4("8.255.255.255").unwrap()));
    assert!(!loose.contains(parse_ipv4("9.0.0.0").unwrap()));

    let wide = parse_network("10.0.0.0/8").unwrap();
    let inner = parse_network("10.5.0.0/16").unwrap();
    let outside = parse_network("11.0.0.0/16").unwrap();
    assert!(wide.overlaps(inner));
    assert!(inner.overlaps(wide));
    assert!(!wide.overlaps(outside));
    assert!(!outside.overlaps(inner));

    // the full address space overlaps everything
    let all = parse_network("0.0.0.0/0").unwrap();
    assert!(all.overlaps(wide));
    assert!(wide.overlaps(all));
}

#[test]
fn host_network_equals_address() {
    let host = parse_network("4.5.6.7/32").unwrap();
    assert!(host.contains(parse_ipv4("4.5.6.7").unwrap()));
    assert!(!host.contains(parse_ipv4("4.5.6.8").unwrap()));
    assert!(!host.contains(parse_ipv4("4.5.6.6").unwrap()));
}
