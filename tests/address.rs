use std::collections::hash_map::DefaultHasher;
use std::hash::{Hash, Hasher};
use tinyportmapper::address::{Address, AddressParseError, Ipv4Octets, Ipv6Segments, ADDR_TYPE_IPV4, ADDR_TYPE_IPV6};

#[test]
fn test_ipv4_parse() {
    let addr = "127.0.0.1:8080".parse::<Address>().expect("Option unwrap failed");
    assert_eq!(addr.get_type(), ADDR_TYPE_IPV4);
    assert_eq!(addr.port(), 8080);
    assert_eq!(addr.to_string(), "127.0.0.1:8080");
}

#[test]
fn test_ipv6_parse() {
    let addr = "[::1]:8080".parse::<Address>().expect("Option unwrap failed");
    assert_eq!(addr.get_type(), ADDR_TYPE_IPV6);
    assert_eq!(addr.port(), 8080);
    assert_eq!(addr.to_string(), "[::1]:8080");
}

#[test]
fn test_ipv6_any() {
    let addr = "[::]:443".parse::<Address>().expect("Option unwrap failed");
    assert_eq!(addr.get_type(), ADDR_TYPE_IPV6);
}

#[test]
fn test_invalid_format() {
    assert_eq!("invalid".parse::<Address>(), Err(AddressParseError::InvalidFormat));
    assert_eq!("127.0.0.1".parse::<Address>(), Err(AddressParseError::InvalidFormat));
}

#[test]
fn test_invalid_port() {
    assert_eq!("127.0.0.1:abc".parse::<Address>(), Err(AddressParseError::InvalidPort));
    assert_eq!("127.0.0.1:99999".parse::<Address>(), Err(AddressParseError::InvalidPort));
}

#[test]
fn test_hash() {
    let addr1 = "127.0.0.1:8080".parse::<Address>().expect("Option unwrap failed");
    let addr2 = "127.0.0.1:8080".parse::<Address>().expect("Option unwrap failed");
    let mut hasher = DefaultHasher::new();
    addr1.hash(&mut hasher);
    let hash1 = hasher.finish();
    let mut hasher = DefaultHasher::new();
    addr2.hash(&mut hasher);
    let hash2 = hasher.finish();
    assert_eq!(hash1, hash2);
}

#[test]
fn test_eq() {
    let addr1 = "127.0.0.1:8080".parse::<Address>().expect("Option unwrap failed");
    let addr2 = "127.0.0.1:8080".parse::<Address>().expect("Option unwrap failed");
    let addr3 = "127.0.0.1:9090".parse::<Address>().expect("Option unwrap failed");
    assert_eq!(addr1, addr2);
    assert_ne!(addr1, addr3);
}

#[test]
fn test_address_len() {
    let ipv4 = "127.0.0.1:8080".parse::<Address>().expect("Option unwrap failed");
    let ipv6 = "[::1]:8080".parse::<Address>().expect("Option unwrap failed");
    assert_eq!(ipv4.get_len(), std::mem::size_of::<libc::sockaddr_in>());
    assert_eq!(ipv6.get_len(), std::mem::size_of::<libc::sockaddr_in6>());
}

#[test]
fn test_to_ipv4_mapped_ipv6() {
    let ipv4: Address = "192.168.1.1:8080".parse().expect("Address parsing failed");
    let ipv6_mapped = ipv4.to_ipv4_mapped_ipv6();
    assert!(ipv6_mapped.is_some());
    let mapped = ipv6_mapped.expect("Option unwrap failed");
    assert_eq!(mapped.get_type(), ADDR_TYPE_IPV6);
    let addr_str = mapped.to_string();
    assert!(addr_str.contains("192.168.1.1"));
}

#[test]
fn test_from_ipv4_mapped_ipv6() {
    let ipv4: Address = "192.168.1.1:8080".parse().expect("Address parsing failed");
    let ipv6_mapped = ipv4.to_ipv4_mapped_ipv6();
    assert!(ipv6_mapped.is_some());
    let ipv6_mapped = ipv6_mapped.expect("Option unwrap failed");
    let ipv4_back = ipv6_mapped.from_ipv4_mapped_ipv6();
    assert!(ipv4_back.is_some());
    let extracted = ipv4_back.expect("Option unwrap failed");
    assert_eq!(extracted.get_type(), ADDR_TYPE_IPV4);
    assert_eq!(extracted.to_string(), "192.168.1.1:8080");
}

#[test]
fn test_non_mapped_ipv6() {
    let ipv6: Address = "[2001:db8::1]:8080".parse().expect("Address parsing failed");
    let ipv4 = ipv6.from_ipv4_mapped_ipv6();
    assert!(ipv4.is_none());
}

#[test]
fn test_localhost_addresses() {
    let ipv4_localhost: Address = "127.0.0.1:8080".parse().expect("Address parsing failed");
    let ipv6_localhost: Address = "[::1]:8080".parse().expect("Address parsing failed");

    assert_eq!(ipv4_localhost.get_type(), ADDR_TYPE_IPV4);
    assert_eq!(ipv6_localhost.get_type(), ADDR_TYPE_IPV6);
    assert_eq!(ipv4_localhost.port(), 8080);
    assert_eq!(ipv6_localhost.port(), 8080);
}

#[test]
fn test_address_port() {
    let addr: Address = "192.168.1.1:3000".parse().expect("Address parsing failed");
    assert_eq!(addr.port(), 3000);
}

#[test]
fn test_unspecified_addresses() {
    let ipv4_any: Address = "0.0.0.0:0".parse().expect("Address parsing failed");
    let ipv6_any: Address = "[::]:0".parse().expect("Address parsing failed");

    assert_eq!(ipv4_any.get_type(), ADDR_TYPE_IPV4);
    assert_eq!(ipv6_any.get_type(), ADDR_TYPE_IPV6);
}

#[test]
fn test_address_parsing() {
    let addr1 = "[2001:19f0:7001:1111:00:ff:11:22]:443"
        .parse::<Address>()
        .expect("Failed to parse IPv6 address");
    assert_eq!(addr1.get_type(), 6);
    assert_eq!(addr1.port(), 443);

    let addr2 = "44.55.66.77:443".parse::<Address>().expect("Failed to parse IPv4 address");
    assert_eq!(addr2.to_string(), "44.55.66.77:443");
    assert_eq!(addr2.get_type(), 4);
    assert_eq!(addr2.port(), 443);

    let hash1 = {
        let mut hasher = DefaultHasher::new();
        addr1.hash(&mut hasher);
        hasher.finish()
    };
    let hash2 = {
        let mut hasher = DefaultHasher::new();
        addr2.hash(&mut hasher);
        hasher.finish()
    };
    assert_ne!(hash1, hash2, "Different addresses should have different hashes");
}

#[test]
fn parse_gives_exact_segments() {
    let a: Address = "[2001:db8::1]:8080".parse().unwrap();
    assert_eq!(
        a,
        Address::from_ipv6(Ipv6Segments(0x2001, 0xdb8, 0, 0, 0, 0, 0, 1), 8080)
    );
    let b: Address = "[::ffff:1.2.3.4]:7".parse().unwrap();
    assert_eq!(b, Address::from_ipv6(Ipv6Segments(0, 0, 0, 0, 0, 0xffff, 0x0102, 0x0304), 7));
    let c: Address = "[1:2:3:4:5:6:7:8]:1".parse().unwrap();
    assert_eq!(c, Address::from_ipv6(Ipv6Segments(1, 2, 3, 4, 5, 6, 7, 8), 1));
    let d: Address = "10.20.30.40:+80".parse().unwrap();
    assert_eq!(d, Address::from_ipv4(Ipv4Octets(10, 20, 30, 40), 80));
}

#[test]
fn parse_rejects_bad_ips() {
    assert_eq!("1.2.3:80".parse::<Address>(), Err(AddressParseError::InvalidIp));
    assert_eq!("01.2.3.4:80".parse::<Address>(), Err(AddressParseError::InvalidIp));
    assert_eq!("256.2.3.4:80".parse::<Address>(), Err(AddressParseError::InvalidIp));
    assert_eq!("[1::2::3]:80".parse::<Address>(), Err(AddressParseError::InvalidIp));
    assert_eq!("[12345::]:80".parse::<Address>(), Err(AddressParseError::InvalidIp));
    assert_eq!("[::1]80".parse::<Address>(), Err(AddressParseError::InvalidFormat));
    assert_eq!("[::1:80".parse::<Address>(), Err(AddressParseError::InvalidFormat));
    assert_eq!("[::1]:".parse::<Address>(), Err(AddressParseError::InvalidPort));
    assert_eq!("::1:80".parse::<Address>(), Err(AddressParseError::InvalidFormat));
}

#[test]
fn format_compresses_longest_zero_run() {
    let a = Address::from_ipv6(Ipv6Segments(1, 0, 0, 2, 0, 0, 0, 3), 9);
    assert_eq!(a.to_string(), "[1:0:0:2::3]:9");
    let b = Address::from_ipv6(Ipv6Segments(1, 0, 2, 0, 3, 0, 4, 0), 9);
    assert_eq!(b.to_string(), "[1:0:2:0:3:0:4:0]:9");
    let c = Address::from_ipv6(Ipv6Segments(0xabcd, 0, 0, 0, 0, 0, 0, 0), 9);
    assert_eq!(c.to_string(), "[abcd::]:9");
}

#[test]
fn text_round_trips() {
    for text in [
        "1.2.3.4:5",
        "255.255.255.255:65535",
        "[2001:db8::1]:8080",
        "[::]:0",
        "[::ffff:192.168.1.1]:8080",
        "[1:0:0:2::3]:9",
        "[fe80::1:2]:22",
    ] {
        let a: Address = text.parse().unwrap();
        assert_eq!(a.to_string(), text);
        assert_eq!(a.to_string().parse::<Address>(), Ok(a));
    }
}

#[test]
fn mapping_round_trips() {
    let v4 = Address::from_ipv4(Ipv4Octets(10, 1, 2, 3), 99);
    let mapped = v4.to_ipv4_mapped_ipv6().unwrap();
    assert_eq!(mapped, Address::from_ipv6(Ipv6Segments(0, 0, 0, 0, 0, 0xffff, 0x0a01, 0x0203), 99));
    assert_eq!(mapped.from_ipv4_mapped_ipv6(), Some(v4));
    assert_eq!(mapped.to_ipv4_mapped_ipv6(), None);
    assert_eq!(v4.from_ipv4_mapped_ipv6(), None);
}

#[test]
fn to_bytes_covers_the_whole_endpoint() {
    let v4 = Address::from_ipv4(Ipv4Octets(1, 2, 3, 4), 0x1234);
    assert_eq!(v4.to_bytes(), vec![1, 2, 3, 4, 0x12, 0x34]);
    let v6 = Address::from_ipv6_with_scope_id(Ipv6Segments(0x2001, 0, 0, 0, 0, 0, 0, 1), 80, 7);
    let bytes = v6.to_bytes();
    assert_eq!(bytes.len(), 26);
    assert_eq!(&bytes[0..2], &[0x20, 0x01]);
    assert_eq!(&bytes[16..18], &[0, 80]);
    assert_eq!(&bytes[22..26], &[0, 0, 0, 7]);
}

#[test]
fn text_cannot_carry_a_scope_id() {
    let a = Address::from_ipv6_with_scope_id(Ipv6Segments(0xfe80, 0, 0, 0, 0, 0, 0, 1), 22, 3);
    assert_eq!(a.to_string(), "[fe80::1]:22");
    let back: Address = a.to_string().parse().unwrap();
    assert_ne!(back, a);
    assert_eq!(back, Address::from_ipv6(Ipv6Segments(0xfe80, 0, 0, 0, 0, 0, 0, 1), 22));
}
