use saimiris_gateway::ip::IpAddress;
use saimiris_gateway::probe::{
    decode_probe, deserialize_json_to_capnp, deserialize_probes_batch, validate_json_probe,
    validate_probes, Probe, ProbeField, ProbeValue, Protocol,
};
use std::str::FromStr;

fn probe_array(ip: &str, sp: u64, dp: u64, ttl: u64, proto: &str) -> ProbeValue {
    ProbeValue::List(vec![
        ProbeField::Text(ip.to_string()),
        ProbeField::Uint(sp),
        ProbeField::Uint(dp),
        ProbeField::Uint(ttl),
        ProbeField::Text(proto.to_string()),
    ])
}

#[test]
fn test_protocol_from_str() {
    assert_eq!(Protocol::from_str("icmp").unwrap(), Protocol::ICMP);
    assert_eq!(Protocol::from_str("udp").unwrap(), Protocol::UDP);
    assert_eq!(Protocol::from_str("tcp").unwrap(), Protocol::TCP);
    assert_eq!(Protocol::from_str("icmpv6").unwrap(), Protocol::ICMPV6);
    assert!(Protocol::from_str("invalid").is_err());
}

#[test]
fn test_validate_probes() {
    let valid_probe = probe_array("192.168.1.1", 12345, 80, 64, "tcp");
    let invalid_probe = probe_array("192.168.1.2", 0, 80, 64, "tcp");

    let probes = vec![valid_probe.clone(), invalid_probe.clone()];

    assert!(validate_probes(&probes).is_err());
    assert!(validate_probes(&vec![valid_probe]).is_ok());
}

#[test]
fn test_json_to_capnp_deserialization() {
    let probe_json = probe_array("192.168.1.1", 12345, 53, 64, "tcp");
    let serialized =
        deserialize_json_to_capnp(&probe_json).expect("Failed to serialize probe record");

    let record = decode_probe(&serialized).expect("Failed to read probe record");

    // IPv4 is normalized to its IPv6-mapped sixteen-byte form
    assert_eq!(record.dst_addr >> 32, 0xffff);
    assert_eq!(record.src_port, 12345);
    assert_eq!(record.dst_port, 53);
    assert_eq!(record.ttl, 64);
    assert_eq!(record.protocol, Protocol::TCP);
}

#[test]
fn test_probe_from_json() {
    let probe_json = probe_array("192.168.1.1", 12345, 53, 64, "tcp");
    let probe = Probe::from_json(&probe_json).expect("Failed to create probe from JSON");

    assert_eq!(
        saimiris_gateway::ip::ip_to_string(&probe.dst_addr),
        "192.168.1.1"
    );
    assert_eq!(probe.src_port, 12345);
    assert_eq!(probe.dst_port, 53);
    assert_eq!(probe.ttl, 64);
    assert_eq!(probe.protocol, Protocol::TCP);
}

#[test]
fn test_probe_to_capnp() {
    let probe = Probe {
        dst_addr: IpAddress::V4(u32::from_be_bytes([192, 168, 1, 1])),
        src_port: 12345,
        dst_port: 53,
        ttl: 64,
        protocol: Protocol::TCP,
    };

    let serialized = probe.to_capnp();
    let record = decode_probe(&serialized).expect("Failed to read probe record");

    assert_eq!(record.src_port, 12345);
    assert_eq!(record.dst_port, 53);
    assert_eq!(record.ttl, 64);
    assert_eq!(record.protocol, Protocol::TCP);
}

#[test]
fn test_invalid_probe_from_json() {
    // Invalid IP
    let invalid_ip = probe_array("not-an-ip", 12345, 53, 64, "tcp");
    assert!(Probe::from_json(&invalid_ip).is_err());

    // Invalid source port
    let invalid_src_port = probe_array("192.168.1.1", 0, 53, 64, "tcp");
    assert!(Probe::from_json(&invalid_src_port).is_err());

    // Invalid protocol
    let invalid_protocol = probe_array("192.168.1.1", 12345, 53, 64, "invalid");
    assert!(Probe::from_json(&invalid_protocol).is_err());
}

#[test]
fn test_json_validation() {
    // Test valid probe
    let valid_probe = probe_array("192.168.1.1", 12345, 53, 64, "tcp");
    assert!(validate_json_probe(&valid_probe).is_ok());

    // Invalid IP
    let invalid_ip = probe_array("not-an-ip", 12345, 53, 64, "tcp");
    assert!(validate_json_probe(&invalid_ip).is_err());

    // Invalid source port
    let invalid_src_port = probe_array("192.168.1.1", 0, 53, 64, "tcp");
    assert!(validate_json_probe(&invalid_src_port).is_err());

    // Invalid destination port
    let invalid_dst_port = probe_array("192.168.1.1", 12345, 0, 64, "tcp");
    assert!(validate_json_probe(&invalid_dst_port).is_err());

    // Invalid TTL
    let invalid_ttl = probe_array("192.168.1.1", 12345, 53, 0, "tcp");
    assert!(validate_json_probe(&invalid_ttl).is_err());

    // Invalid protocol
    let invalid_protocol = probe_array("192.168.1.1", 12345, 53, 64, "invalid");
    assert!(validate_json_probe(&invalid_protocol).is_err());

    // Invalid array length
    let invalid_length = ProbeValue::List(vec![
        ProbeField::Text("192.168.1.1".to_string()),
        ProbeField::Uint(12345),
        ProbeField::Uint(53),
        ProbeField::Uint(64),
    ]);
    assert!(validate_json_probe(&invalid_length).is_err());

    // Not an array
    let not_array = ProbeValue::Other;
    assert!(validate_json_probe(&not_array).is_err());
}

#[test]
fn test_deserialize_json_batch() {
    let probes = vec![
        probe_array("192.168.1.1", 12345, 53, 64, "tcp"),
        probe_array("192.168.1.2", 54321, 80, 32, "udp"),
        probe_array("2001:db8::1", 8080, 443, 48, "tcp"),
    ];

    let batches = deserialize_probes_batch(&probes, 10000).expect("Failed to serialize batch");
    assert!(batches.len() > 0);

    // A batch with an invalid probe should cause an error
    let invalid_probes = vec![
        probe_array("192.168.1.1", 12345, 53, 64, "tcp"),
        probe_array("invalid-ip", 54321, 80, 32, "udp"),
    ];
    assert!(deserialize_probes_batch(&invalid_probes, 10000).is_err());
}
