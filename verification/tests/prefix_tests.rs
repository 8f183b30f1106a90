use saimiris_gateway::{calculate_user_prefix, validate_user_ipv6, Ipv6Address};

#[test]
fn test_calculate_user_prefix_function() {
    let user_id = 0x12345678u32;
    let agent_prefix = "2001:db8:1234::/48";

    let user_prefix = calculate_user_prefix(agent_prefix, user_id);
    assert!(user_prefix.is_some());

    let user_prefix = user_prefix.unwrap();
    assert!(user_prefix.starts_with("2001:db8:1234:"));
    assert!(user_prefix.ends_with("/80"));

    // Invalid prefix
    let invalid_result = calculate_user_prefix("invalid-prefix", user_id);
    assert!(invalid_result.is_none());
}

#[test]
fn test_calculate_user_prefix_various_lengths() {
    let user_id = 1000u32;

    let test_cases = vec![
        ("2001:db8::/48", "/80"),
        ("2001:db8::/64", "/96"),
        ("2001:db8::/32", "/64"),
        ("2001:db8::/56", "/88"),
        ("2001:db8:1234::/48", "/80"),
        ("2001:db8:abcd::/64", "/96"),
    ];

    for (agent_prefix, expected_suffix) in test_cases {
        let user_prefix = calculate_user_prefix(agent_prefix, user_id);
        assert!(user_prefix.is_some(), "Failed to calculate prefix for {}", agent_prefix);

        let user_prefix = user_prefix.unwrap();
        assert!(
            user_prefix.ends_with(expected_suffix),
            "Expected {} to end with {}, got: {}",
            agent_prefix,
            expected_suffix,
            user_prefix
        );
    }
}

#[test]
fn test_calculate_user_prefix_invalid_inputs() {
    let user_id = 1000u32;

    let invalid_cases = vec![
        "invalid-prefix", // not an IPv6 prefix at all
        "2001:db8::/97",  // not enough space for a 32-bit tag
        "2001:db8::/128", // no space at all
        "2001:db8::/200", // length out of range
        "2001:db8::",     // missing length
        "2001:db8::/",    // empty length
        "192.168.1.0/24", // an IPv4 prefix
    ];

    for invalid_prefix in invalid_cases {
        let result = calculate_user_prefix(invalid_prefix, user_id);
        assert!(result.is_none(), "Expected None for invalid prefix: {}", invalid_prefix);
    }
}

#[test]
fn test_validate_user_ipv6_various_lengths() {
    let user_id = 1000u32; // 0x3e8
    let agent_prefix = "2001:db8::/64";

    let calculated_prefix = calculate_user_prefix(agent_prefix, user_id).unwrap();
    // the tag lands in segments 5 and 6 under a /64
    assert_eq!(calculated_prefix, "2001:db8::3e8:0:0/96");

    // The base of the calculated prefix is a valid source address
    let base_ip = Ipv6Address::new(0x2001, 0x0db8, 0, 0, 0, 0x03e8, 0, 0);
    assert!(validate_user_ipv6(&base_ip, agent_prefix, user_id));

    // A nearby address inside the same /96 also validates
    let variant_ip = Ipv6Address::new(0x2001, 0x0db8, 0, 0, 0, 0x03e8, 0, 1);
    assert!(validate_user_ipv6(&variant_ip, agent_prefix, user_id));

    // Another user's base does not
    let invalid_ip = Ipv6Address::new(0x2001, 0x0db8, 0, 0, 0, 0x03e9, 0, 0);
    assert!(!validate_user_ipv6(&invalid_ip, agent_prefix, user_id));
}

#[test]
fn test_validate_user_ipv6_48_prefix() {
    let user_id = 1000u32; // 0x3e8
    let agent_prefix = "2001:db8::/48";

    // Within the user's /80 prefix 2001:db8:0:0:3e8::/80
    let valid_ips = vec![
        Ipv6Address::new(0x2001, 0x0db8, 0, 0, 0x03e8, 0, 0, 0),
        Ipv6Address::new(0x2001, 0x0db8, 0, 0, 0x03e8, 0, 0, 1),
        Ipv6Address::new(0x2001, 0x0db8, 0, 0, 0x03e8, 0xffff, 0xffff, 0xffff),
    ];

    for ip in valid_ips {
        assert!(validate_user_ipv6(&ip, agent_prefix, user_id));
    }

    let invalid_ips = vec![
        Ipv6Address::new(0x2001, 0x0db8, 0, 0, 0x03e7, 0, 0, 0), // wrong tag
        Ipv6Address::new(0x2001, 0x0db8, 0, 0, 0x03e9, 0, 0, 0), // wrong tag
        Ipv6Address::new(0x2001, 0x0db8, 1, 0, 0x03e8, 0, 0, 0), // wrong base network
    ];

    for ip in invalid_ips {
        assert!(!validate_user_ipv6(&ip, agent_prefix, user_id));
    }
}

#[test]
fn test_prefix_calculation_edge_cases() {
    // Minimum user tag
    let min_user_id = 1u32;
    let prefix = "2001:db8::/64";
    let user_prefix = calculate_user_prefix(prefix, min_user_id).unwrap();
    assert!(user_prefix.contains("2001:db8::"));
    assert!(user_prefix.ends_with("/96"));

    // Maximum 32-bit tag
    let max_user_id = 0xFFFFFFFFu32;
    let user_prefix = calculate_user_prefix(prefix, max_user_id).unwrap();
    assert!(user_prefix.contains("2001:db8::"));
    assert!(user_prefix.ends_with("/96"));

    // A /96 agent prefix leaves exactly the tag's 32 bits
    let tight_prefix = "2001:db8::/96";
    let user_prefix = calculate_user_prefix(tight_prefix, 1000u32).unwrap();
    assert!(user_prefix.ends_with("/128"));

    // The base of the calculated /128 validates
    let test_ip = Ipv6Address::new(0x2001, 0x0db8, 0, 0, 0, 0, 0, 0x03e8);
    assert!(validate_user_ipv6(&test_ip, tight_prefix, 1000u32));
}

#[test]
fn test_subprefix_scenario() {
    // An agent /48 with a full 32-bit tag: the tag spans segments 4 and 5
    let user_prefix = calculate_user_prefix("2001:db8:1234::/48", 0x12345678).unwrap();
    assert_eq!(user_prefix, "2001:db8:1234:1234:5678::/80");

    let inside = Ipv6Address::new(0x2001, 0x0db8, 0x1234, 0x1234, 0x5678, 0, 0, 1);
    assert!(validate_user_ipv6(&inside, "2001:db8:1234::/48", 0x12345678));

    let outside = Ipv6Address::new(0x2001, 0x0db8, 0x1234, 0x9999, 0x8888, 0, 0, 1);
    assert!(!validate_user_ipv6(&outside, "2001:db8:1234::/48", 0x12345678));
}
