use asus_router::cidr::{Ipv4Cidr, parse_cidr, format_cidr, truncate};
use asus_router::errors::RouterError;

fn addr(a: u32, b: u32, c: u32, d: u32) -> u32 {
    (a << 24) | (b << 16) | (c << 8) | d
}

#[test]
fn parse_simple_cidr() {
    let c = parse_cidr("1.2.3.0/24").unwrap();
    assert_eq!(c, Ipv4Cidr { addr: addr(1, 2, 3, 0), prefix: 24 });
}

#[test]
fn parse_host_cidr() {
    let c = parse_cidr("8.8.8.8/32").unwrap();
    assert_eq!(c, Ipv4Cidr { addr: addr(8, 8, 8, 8), prefix: 32 });
}

#[test]
fn parse_whole_space_cidr() {
    let c = parse_cidr("0.0.0.0/0").unwrap();
    assert_eq!(c, Ipv4Cidr { addr: 0, prefix: 0 });
}

#[test]
fn parse_canonicalizes_host_bits() {
    let c = parse_cidr("1.2.3.4/24").unwrap();
    assert_eq!(c, Ipv4Cidr { addr: addr(1, 2, 3, 0), prefix: 24 });
}

#[test]
fn parse_rejects_malformed_text() {
    assert!(matches!(parse_cidr(""), Err(RouterError::Parse(t)) if t.is_empty()));
    assert!(parse_cidr("1.2.3").is_err());
    assert!(parse_cidr("1.2.3.4").is_err());
    assert!(parse_cidr("1.2.3.4/33").is_err());
    assert!(parse_cidr("256.0.0.0/8").is_err());
    assert!(parse_cidr("01.2.3.0/24").is_err());
    assert!(parse_cidr("1.2.3.0/24 ").is_err());
    assert!(parse_cidr("1.2.3.0/").is_err());
    assert!(parse_cidr("a.b.c.d/8").is_err());
}

#[test]
fn parse_error_carries_input() {
    match parse_cidr("not-a-subnet") {
        Err(RouterError::Parse(t)) => assert_eq!(t, "not-a-subnet"),
        other => panic!("expected a parse error, got {:?}", other.is_ok()),
    }
}

#[test]
fn format_round_trips() {
    for text in ["10.0.0.0/8", "1.2.3.0/24", "8.8.8.8/32", "0.0.0.0/0", "34.64.0.0/10"] {
        let c = parse_cidr(text).unwrap();
        assert_eq!(format_cidr(&c), text);
        assert_eq!(parse_cidr(&format_cidr(&c)).unwrap(), c);
    }
}

#[test]
fn contains_host_subnet_exactly_its_address() {
    let c = parse_cidr("8.8.8.8/32").unwrap();
    assert!(c.contains(addr(8, 8, 8, 8)));
    assert!(!c.contains(addr(8, 8, 8, 9)));
    assert!(!c.contains(addr(8, 8, 8, 7)));
}

#[test]
fn contains_whole_space() {
    let c = parse_cidr("0.0.0.0/0").unwrap();
    assert!(c.contains(0));
    assert!(c.contains(u32::MAX));
    assert!(c.contains(addr(192, 168, 1, 1)));
}

#[test]
fn contains_block_boundaries() {
    let c = parse_cidr("1.2.3.0/24").unwrap();
    assert!(c.contains(addr(1, 2, 3, 0)));
    assert!(c.contains(addr(1, 2, 3, 255)));
    assert!(!c.contains(addr(1, 2, 4, 0)));
    assert!(!c.contains(addr(1, 2, 2, 255)));
}

#[test]
fn truncate_zeroes_host_bits() {
    let c = truncate(addr(10, 20, 30, 40), 16);
    assert_eq!(c, Ipv4Cidr { addr: addr(10, 20, 0, 0), prefix: 16 });
    assert!(c.contains(addr(10, 20, 30, 40)));
}

#[test]
fn ordering_is_by_address_then_prefix() {
    let a = parse_cidr("1.2.3.0/24").unwrap();
    let b = parse_cidr("1.2.3.0/25").unwrap();
    let c = parse_cidr("9.9.9.0/24").unwrap();
    assert!(a.lt(&b));
    assert!(b.lt(&c));
    assert!(!c.lt(&a));
}
