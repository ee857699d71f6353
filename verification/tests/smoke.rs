use ipset_lookup::parse_ipv4;
use ipset_lookup::parse_network;
use ipset_lookup::Ipv4Addr;
use ipset_lookup::Ipv4Network;
use ipset_lookup::Lookup;

#[test]
fn smoke_test_lookups() {
    let mut ips: Vec<Ipv4Addr> = Vec::new();
    ips.insert(0, parse_ipv4("8.8.8.8").unwrap());
    let mut nets: Vec<Ipv4Network> = Vec::new();
    nets.insert(0, parse_network("8.8.8.8/8").unwrap());
    let ip: Ipv4Addr = parse_ipv4("8.8.8.8").unwrap();
    let ip2: Ipv4Addr = parse_ipv4("1.1.1.1").unwrap();
    let net: Ipv4Network = parse_network("8.8.8.8/8").unwrap();
    let net2: Ipv4Network = parse_network("1.1.1.1/8").unwrap();

    assert!(ips.lookup_by_ip(ip), "ips - lookup_by_ip is not eq");
    assert!(!ips.lookup_by_ip(ip2), "ips - lookup_by_ip is not neq");
    assert!(ips.lookup_by_net(net), "ips - lookup_by_net is not eq");
    assert!(!ips.lookup_by_net(net2), "ips - lookup_by_net is not neq");

    assert!(nets.lookup_by_ip(ip), "nets - lookup_by_ip is not eq");
    assert!(nets.lookup_by_net(net), "nets - lookup_by_net is not eq");
    assert!(!nets.lookup_by_ip(ip2), "nets - lookup_by_ip is not neq");
    assert!(!nets.lookup_by_net(net2), "nets - lookup_by_net is not neq");
}
