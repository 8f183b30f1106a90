use saimiris_gateway::ip::{ip_to_string, parse_ip, parse_ipv4, parse_ipv6, IpAddress};

#[test]
fn test_parse_ipv4_forms() {
    assert_eq!(parse_ipv4("192.0.2.1"), Some(u32::from_be_bytes([192, 0, 2, 1])));
    assert_eq!(parse_ipv4("0.0.0.0"), Some(0));
    assert_eq!(parse_ipv4("255.255.255.255"), Some(u32::MAX));
    assert_eq!(parse_ipv4("256.0.0.1"), None);
    assert_eq!(parse_ipv4("1.2.3"), None);
    assert_eq!(parse_ipv4("1.2.3.4.5"), None);
    assert_eq!(parse_ipv4("01.2.3.4"), None); // surplus leading zero
    assert_eq!(parse_ipv4(""), None);
    assert_eq!(parse_ipv4("a.b.c.d"), None);
}

#[test]
fn test_parse_ipv6_forms() {
    assert_eq!(parse_ipv6("::"), Some(0));
    assert_eq!(parse_ipv6("::1"), Some(1));
    assert_eq!(parse_ipv6("1::"), Some(1u128 << 112));
    assert_eq!(
        parse_ipv6("2001:db8::1"),
        Some((0x2001u128 << 112) | (0x0db8u128 << 96) | 1)
    );
    assert_eq!(
        parse_ipv6("1:2:3:4:5:6:7:8"),
        Some(
            (1u128 << 112)
                | (2u128 << 96)
                | (3u128 << 80)
                | (4u128 << 64)
                | (5u128 << 48)
                | (6u128 << 32)
                | (7u128 << 16)
                | 8
        )
    );
    // a dotted IPv4 tail occupies the last thirty-two bits
    assert_eq!(
        parse_ipv6("::ffff:192.0.2.1"),
        Some(0xffff_0000_0000u128 | u128::from(u32::from_be_bytes([192, 0, 2, 1])))
    );
    // the gap must stand for at least one group
    assert_eq!(parse_ipv6("1:2:3:4:5:6:7:8::"), None);
    assert_eq!(parse_ipv6("::1:2:3:4:5:6:7:8"), None);
    // a single colon is not a gap
    assert_eq!(parse_ipv6(":"), None);
    assert_eq!(parse_ipv6(":1:2:3:4:5:6:7"), None);
    assert_eq!(parse_ipv6("1:2:3"), None);
    assert_eq!(parse_ipv6("1::2::3"), None);
    assert_eq!(parse_ipv6("12345::"), None); // five digits in one group
}

#[test]
fn test_parse_ip_prefers_dotted() {
    assert_eq!(
        parse_ip("10.0.0.1"),
        Some(IpAddress::V4(u32::from_be_bytes([10, 0, 0, 1])))
    );
    assert_eq!(parse_ip("::2"), Some(IpAddress::V6(2)));
    assert_eq!(parse_ip("nonsense"), None);
}

#[test]
fn test_ipv6_text_compression() {
    assert_eq!(ip_to_string(&IpAddress::V6(0)), "::");
    assert_eq!(ip_to_string(&IpAddress::V6(1)), "::1");
    assert_eq!(ip_to_string(&IpAddress::V6(1u128 << 112)), "1::");
    // the leftmost longest zero run is compressed
    let a = parse_ipv6("1:0:0:2:0:0:0:3").unwrap();
    assert_eq!(ip_to_string(&IpAddress::V6(a)), "1:0:0:2::3");
    // a single zero group is not compressed
    let b = parse_ipv6("1:2:3:4:0:6:7:8").unwrap();
    assert_eq!(ip_to_string(&IpAddress::V6(b)), "1:2:3:4:0:6:7:8");
    // the IPv4-mapped form is shown dotted
    let m = parse_ipv6("::ffff:192.0.2.1").unwrap();
    assert_eq!(ip_to_string(&IpAddress::V6(m)), "::ffff:192.0.2.1");
    // IPv4 text
    assert_eq!(
        ip_to_string(&IpAddress::V4(u32::from_be_bytes([198, 51, 100, 7]))),
        "198.51.100.7"
    );
}

#[test]
fn test_text_roundtrip_samples() {
    for s in ["::", "::1", "1::", "2001:db8::8:800:200c:417a", "fe80::1", "1:0:0:2::3"] {
        let a = parse_ipv6(s).unwrap();
        assert_eq!(ip_to_string(&IpAddress::V6(a)), s);
    }
}
