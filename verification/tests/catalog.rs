use ipset_lookup::parse_ipv4;
use ipset_lookup::parse_network;
use ipset_lookup::Error;
use ipset_lookup::FeedSource;
use ipset_lookup::LookupSets;
use ipset_lookup::NetSetFeed;

fn source(path: &str, lines: &[&str]) -> FeedSource {
    FeedSource {
        path: path.to_string(),
        lines: lines.iter().map(|l| l.to_string()).collect(),
    }
}

fn id(category: &str, name: &str) -> NetSetFeed {
    NetSetFeed { category: category.to_string(), name: name.to_string() }
}

#[test]
fn category_from_single_header() {
    let s = source(
        "data/foo.netset",
        &["# Category        : malware", "# maintainer: someone", "1.2.3.0/24"],
    );
    let catalog = LookupSets::new(vec![s]).unwrap();
    assert_eq!(catalog.data.len(), 1);
    assert_eq!(catalog.data[0].feed, id("malware", "foo"));
}

#[test]
fn category_defaults_without_header() {
    let s = source("data/foo.netset", &["# just a comment", "1.2.3.0/24"]);
    let catalog = LookupSets::new(vec![s]).unwrap();
    assert_eq!(catalog.data[0].feed, id("other", "foo"));
}

#[test]
fn category_defaults_with_two_headers() {
    let s = source(
        "data/foo.netset",
        &["# Category        : malware", "# Category        : spam", "1.2.3.0/24"],
    );
    let catalog = LookupSets::new(vec![s]).unwrap();
    assert_eq!(catalog.data[0].feed, id("other", "foo"));
}

#[test]
fn header_after_data_does_not_count() {
    let s = source("data/foo.netset", &["1.2.3.0/24", "# Category        : malware"]);
    let catalog = LookupSets::new(vec![s]).unwrap();
    assert_eq!(catalog.data[0].feed, id("other", "foo"));
}

#[test]
fn header_value_is_trimmed() {
    let s = source("data/foo.netset", &["# Category        :  spam list \t", "1.2.3.4"]);
    let catalog = LookupSets::new(vec![s]).unwrap();
    assert_eq!(catalog.data[0].feed.category, "spam list");
}

#[test]
fn file_stem_drops_directory_and_extension() {
    let one = source("blocklist-ipsets/sub/level1.netset", &["1.2.3.0/24"]);
    let two = source("archive.tar.gz", &["1.2.3.4"]);
    let three = source(".hidden", &["1.2.3.4"]);
    let catalog = LookupSets::new(vec![one, two, three]).unwrap();
    assert_eq!(catalog.data[0].feed.name, "level1");
    assert_eq!(catalog.data[1].feed.name, "archive.tar");
    assert_eq!(catalog.data[2].feed.name, ".hidden");
}

#[test]
fn classification_by_slash() {
    let s = source(
        "data/mixed.netset",
        &[
            "# Category        : mixed",
            "1.2.3.0/24",
            "",
            "9.9.9.9",
            "# a comment between entries",
            "10.0.0.0/8",
        ],
    );
    let catalog = LookupSets::new(vec![s]).unwrap();
    assert_eq!(catalog.data[0].nets.len(), 2);
    assert_eq!(catalog.data[0].ips.len(), 1);
    assert_eq!(catalog.data[0].nets[0], parse_network("1.2.3.0/24").unwrap());
    assert_eq!(catalog.data[0].nets[1], parse_network("10.0.0.0/8").unwrap());
    assert_eq!(catalog.data[0].ips[0], parse_ipv4("9.9.9.9").unwrap());
}

#[test]
fn example_malware_foo() {
    let s = source("feeds/foo.netset", &["# Category        : malware", "1.2.3.0/24"]);
    let catalog = LookupSets::new(vec![s]).unwrap();
    let hit = catalog.lookup_by_ip(parse_ipv4("1.2.3.4").unwrap());
    let expected = id("malware", "foo");
    assert_eq!(hit, vec![&expected]);
    let miss = catalog.lookup_by_ip(parse_ipv4("9.9.9.9").unwrap());
    assert!(miss.is_empty());
}

#[test]
fn example_overlap_query_order() {
    let ax = source("feeds/x.netset", &["# Category        : a", "10.0.0.0/8"]);
    let by = source("feeds/y.netset", &["# Category        : b", "10.1.1.1"]);
    let catalog = LookupSets::new(vec![by, ax]).unwrap();
    let a_x = id("a", "x");
    let b_y = id("b", "y");
    // the query network overlaps the stored network of a/x and contains
    // the stored address of b/y; the result is sorted
    let hits = catalog.lookup_by_net(parse_network("10.0.0.0/8").unwrap());
    assert_eq!(hits, vec![&a_x, &b_y]);
    // narrowed to 10.0.0.0/16 the query still overlaps 10.0.0.0/8, but no
    // longer contains the address 10.1.1.1
    let narrower = catalog.lookup_by_net(parse_network("10.0.0.0/16").unwrap());
    assert_eq!(narrower, vec![&a_x]);
}

#[test]
fn address_query_equals_host_network_query() {
    let ax = source("feeds/x.netset", &["# Category        : a", "10.0.0.0/8"]);
    let by = source("feeds/y.netset", &["# Category        : b", "10.1.1.1"]);
    let catalog = LookupSets::new(vec![ax, by]).unwrap();
    let ip = parse_ipv4("10.1.1.1").unwrap();
    let by_ip = catalog.lookup_by_ip(ip);
    let by_net = catalog.lookup_by_net(parse_network("10.1.1.1/32").unwrap());
    assert_eq!(by_ip, by_net);
    assert_eq!(by_ip.len(), 2);
}

#[test]
fn overlap_not_containment() {
    let s = source("feeds/wide.netset", &["# Category        : infra", "10.0.0.0/8"]);
    let catalog = LookupSets::new(vec![s]).unwrap();
    let infra_wide = id("infra", "wide");
    // a query wider than the stored network still matches
    let wide = catalog.lookup_by_net(parse_network("0.0.0.0/0").unwrap());
    assert_eq!(wide, vec![&infra_wide]);
    // narrowed to a sub-range that still overlaps, the feed stays matched
    let narrow = catalog.lookup_by_net(parse_network("10.5.0.0/16").unwrap());
    assert_eq!(narrow, vec![&infra_wide]);
    // narrowed past the stored network, it no longer matches
    let gone = catalog.lookup_by_net(parse_network("11.0.0.0/16").unwrap());
    assert!(gone.is_empty());
}

#[test]
fn repeated_queries_are_identical() {
    let one = source("feeds/one.netset", &["# Category        : a", "10.0.0.0/8"]);
    let two = source("feeds/two.netset", &["# Category        : a", "10.0.0.0/8"]);
    let three = source("feeds/three.netset", &["# Category        : b", "10.2.3.4"]);
    let catalog = LookupSets::new(vec![one, two, three]).unwrap();
    let ip = parse_ipv4("10.2.3.4").unwrap();
    let first = catalog.lookup_by_ip(ip);
    let second = catalog.lookup_by_ip(ip);
    assert_eq!(first, second);
    assert_eq!(first.len(), 3);
    let a_one = id("a", "one");
    let a_two = id("a", "two");
    let b_three = id("b", "three");
    assert_eq!(first, vec![&a_one, &a_two, &b_three]);
}

#[test]
fn empty_catalog_answers_empty() {
    let catalog = LookupSets::new(Vec::new()).unwrap();
    assert_eq!(catalog.data.len(), 0);
    assert!(catalog.lookup_by_ip(parse_ipv4("8.8.8.8").unwrap()).is_empty());
    assert!(catalog.lookup_by_net(parse_network("0.0.0.0/0").unwrap()).is_empty());
}

#[test]
fn fail_fast_names_file_and_line() {
    let good = source("feeds/good.netset", &["1.2.3.4"]);
    let bad = source(
        "feeds/bad.netset",
        &["# Category        : junk", "1.2.3.4", "999.999.999.999", "2.2.2.2"],
    );
    let err = LookupSets::new(vec![good, bad]).unwrap_err();
    match err {
        Error::SourceFormat { file, line_number, line } => {
            assert_eq!(file, "feeds/bad.netset");
            assert_eq!(line_number, 3);
            assert_eq!(line, "999.999.999.999");
        }
        _ => panic!("expected a format error"),
    }
}

#[test]
fn fail_fast_reports_first_bad_source() {
    let bad_one = source("feeds/one.netset", &["not an address"]);
    let bad_two = source("feeds/two.netset", &["also bad"]);
    let err = LookupSets::new(vec![bad_one, bad_two]).unwrap_err();
    match err {
        Error::SourceFormat { file, .. } => assert_eq!(file, "feeds/one.netset"),
        _ => panic!("expected a format error"),
    }
}

#[test]
fn best_effort_skips_bad_feeds() {
    let good = source("feeds/good.netset", &["# Category        : ok", "1.2.3.4"]);
    let bad = source("feeds/bad.netset", &["999.999.999.999"]);
    let also_good = source("feeds/also.netset", &["# Category        : ok", "5.6.7.8"]);
    let (catalog, errors) = LookupSets::new_best_effort(vec![good, bad, also_good]);
    assert_eq!(catalog.data.len(), 2);
    assert_eq!(catalog.data[0].feed, id("ok", "good"));
    assert_eq!(catalog.data[1].feed, id("ok", "also"));
    assert_eq!(errors.len(), 1);
    match &errors[0] {
        Error::SourceFormat { file, line_number, line } => {
            assert_eq!(file, "feeds/bad.netset");
            assert_eq!(*line_number, 1);
            assert_eq!(line, "999.999.999.999");
        }
        _ => panic!("expected a format error"),
    }
}

#[test]
fn lookup_by_str_parses_and_queries() {
    let s = source("feeds/foo.netset", &["# Category        : malware", "8.8.8.8"]);
    let catalog = LookupSets::new(vec![s]).unwrap();
    let hits = catalog.lookup_by_str("8.8.8.8");
    let expected = id("malware", "foo");
    assert_eq!(hits, vec![&expected]);
}

#[test]
fn label_joins_category_and_name() {
    let f = id("malware", "foo");
    assert_eq!(f.label(), "malware/foo");
}

#[test]
fn duplicate_feed_ids_both_remain() {
    let one = source("a/same.netset", &["# Category        : c", "1.1.1.1"]);
    let two = source("b/same.netset", &["# Category        : c", "1.1.1.1"]);
    let catalog = LookupSets::new(vec![one, two]).unwrap();
    let hits = catalog.lookup_by_ip(parse_ipv4("1.1.1.1").unwrap());
    assert_eq!(hits.len(), 2);
}

#[test]
fn whitespace_only_line_is_a_format_error() {
    let s = source("feeds/ws.netset", &["1.2.3.4", " "]);
    let err = LookupSets::new(vec![s]).unwrap_err();
    match err {
        Error::SourceFormat { line_number, .. } => assert_eq!(line_number, 2),
        _ => panic!("expected a format error"),
    }
}
