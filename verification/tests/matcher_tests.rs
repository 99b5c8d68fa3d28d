use asus_router::cidr::parse_cidr;
use asus_router::catalog::{normalize_catalog, build_catalog};
use asus_router::matcher::match_subnets;
use asus_router::errors::RouterError;
use asus_router::jsontext::serialize_subnets;

fn addr(a: u32, b: u32, c: u32, d: u32) -> u32 {
    (a << 24) | (b << 16) | (c << 8) | d
}

#[test]
fn normalize_sorts_and_deduplicates() {
    let subnets = vec![
        parse_cidr("9.9.9.0/24").unwrap(),
        parse_cidr("1.2.3.0/24").unwrap(),
        parse_cidr("9.9.9.0/24").unwrap(),
        parse_cidr("1.2.3.0/25").unwrap(),
    ];
    let n = normalize_catalog(&subnets);
    assert_eq!(n, vec![
        parse_cidr("1.2.3.0/24").unwrap(),
        parse_cidr("1.2.3.0/25").unwrap(),
        parse_cidr("9.9.9.0/24").unwrap(),
    ]);
}

#[test]
fn normalize_is_idempotent() {
    let subnets = vec![
        parse_cidr("64.233.160.0/19").unwrap(),
        parse_cidr("34.64.0.0/10").unwrap(),
        parse_cidr("34.64.0.0/10").unwrap(),
    ];
    let once = normalize_catalog(&subnets);
    let twice = normalize_catalog(&once);
    assert_eq!(once, twice);
}

#[test]
fn build_catalog_skips_entries_without_prefix() {
    let entries = vec![
        Some("9.9.9.0/24".to_string()),
        None,
        Some("1.2.3.0/24".to_string()),
        None,
    ];
    let catalog = build_catalog(&entries).unwrap();
    assert_eq!(catalog, vec![
        parse_cidr("1.2.3.0/24").unwrap(),
        parse_cidr("9.9.9.0/24").unwrap(),
    ]);
}

#[test]
fn build_catalog_same_input_same_output() {
    let entries = vec![
        Some("9.9.9.0/24".to_string()),
        Some("1.2.3.0/24".to_string()),
    ];
    assert_eq!(build_catalog(&entries).unwrap(), build_catalog(&entries).unwrap());
}

#[test]
fn build_catalog_fails_on_malformed_entry() {
    let entries = vec![Some("1.2.3.0/24".to_string()), Some("nope".to_string())];
    match build_catalog(&entries) {
        Err(RouterError::Parse(t)) => assert_eq!(t, "nope"),
        _ => panic!("expected a parse error"),
    }
}

#[test]
fn match_moves_containing_subnet_once() {
    let catalog = vec![
        parse_cidr("1.2.3.0/24").unwrap(),
        parse_cidr("9.9.9.0/24").unwrap(),
    ];
    let addrs = vec![addr(1, 2, 3, 4), addr(1, 2, 3, 5)];
    let (matched, remaining) = match_subnets(&addrs, catalog);
    assert_eq!(matched, vec![parse_cidr("1.2.3.0/24").unwrap()]);
    assert_eq!(remaining, vec![parse_cidr("9.9.9.0/24").unwrap()]);
}

#[test]
fn match_partitions_the_catalog() {
    let catalog = vec![
        parse_cidr("1.2.3.0/24").unwrap(),
        parse_cidr("5.6.0.0/16").unwrap(),
        parse_cidr("9.9.9.0/24").unwrap(),
    ];
    let addrs = vec![addr(5, 6, 7, 8), addr(9, 9, 9, 9)];
    let (matched, remaining) = match_subnets(&addrs, catalog.clone());
    assert_eq!(matched.len() + remaining.len(), catalog.len());
    for c in &catalog {
        assert!(matched.contains(c) ^ remaining.contains(c));
    }
    assert_eq!(matched, vec![
        parse_cidr("5.6.0.0/16").unwrap(),
        parse_cidr("9.9.9.0/24").unwrap(),
    ]);
}

#[test]
fn match_with_empty_addresses_leaves_catalog_untouched() {
    let catalog = vec![parse_cidr("1.2.3.0/24").unwrap()];
    let addrs: Vec<u32> = Vec::new();
    let (matched, remaining) = match_subnets(&addrs, catalog.clone());
    assert!(matched.is_empty());
    assert_eq!(remaining, catalog);
}

#[test]
fn match_returns_exactly_the_covered_subnets() {
    let catalog = vec![
        parse_cidr("1.0.0.0/8").unwrap(),
        parse_cidr("2.0.0.0/8").unwrap(),
        parse_cidr("3.0.0.0/8").unwrap(),
    ];
    let addrs = vec![addr(3, 1, 1, 1), addr(1, 1, 1, 1), addr(3, 2, 2, 2)];
    let (matched, _) = match_subnets(&addrs, catalog);
    assert_eq!(matched, vec![
        parse_cidr("3.0.0.0/8").unwrap(),
        parse_cidr("1.0.0.0/8").unwrap(),
    ]);
}

#[test]
fn discovery_scenario_two_hostnames() {
    let catalog = vec![
        parse_cidr("1.2.3.0/24").unwrap(),
        parse_cidr("9.9.9.0/24").unwrap(),
    ];
    let a_example = vec![addr(1, 2, 3, 4)];
    let b_example = vec![addr(5, 6, 7, 8)];
    let mut addrs = Vec::new();
    addrs.extend(&a_example);
    addrs.extend(&b_example);
    let (matched, _) = match_subnets(&addrs, catalog);
    assert_eq!(matched, vec![parse_cidr("1.2.3.0/24").unwrap()]);
    assert_eq!(serialize_subnets(&matched), "[\"1.2.3.0/24\"]");
}
