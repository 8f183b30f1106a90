use saimiris_gateway::agent::{AgentConfig, AgentStore, HealthStatus};
use saimiris_gateway::database::Database;
use saimiris_gateway::ip::IpAddress;
use saimiris_gateway::jwt::{agent_key_matches, extract_bearer_token};
use saimiris_gateway::probe::{
    decode_probe, deserialize_json_to_capnp, deserialize_probes_batch, validate_probes,
    ProbeField, ProbeValue, Protocol,
};
use saimiris_gateway::submit::{
    parse_uuid, submit_probes, uuid_text, AgentMetadata, SubmitProbesRequest,
};

const NOW: i64 = 1_700_000_000;

fn probe_array(ip: &str, sp: u64, dp: u64, ttl: u64, proto: &str) -> ProbeValue {
    ProbeValue::List(vec![
        ProbeField::Text(ip.to_string()),
        ProbeField::Uint(sp),
        ProbeField::Uint(dp),
        ProbeField::Uint(ttl),
        ProbeField::Text(proto.to_string()),
    ])
}

#[test]
fn test_roundtrip_codec_scenario() {
    // ["192.0.2.1", 33434, 53, 64, "udp"] comes back as the IPv6-mapped
    // address with every field intact
    let probe = probe_array("192.0.2.1", 33434, 53, 64, "udp");
    let bytes = deserialize_json_to_capnp(&probe).unwrap();
    let record = decode_probe(&bytes).unwrap();

    let mapped: u128 = 0xffff_0000_0000u128 | u128::from(u32::from_be_bytes([192, 0, 2, 1]));
    assert_eq!(record.dst_addr, mapped);
    assert_eq!(record.src_port, 33434);
    assert_eq!(record.dst_port, 53);
    assert_eq!(record.ttl, 64);
    assert_eq!(record.protocol, Protocol::UDP);
}

#[test]
fn test_validation_scenario() {
    // a zero source port at index 0 names the index and the field
    let probes = vec![probe_array("192.0.2.1", 0, 53, 64, "tcp")];
    let err = validate_probes(&probes).unwrap_err();
    assert_eq!(err, "Probe at index 0: Invalid source port: 0");
}

#[test]
fn test_batching_bound() {
    // records are 48 bytes; a 100-byte budget packs them two per batch
    let probes = vec![
        probe_array("192.0.2.1", 1000, 53, 64, "udp"),
        probe_array("192.0.2.2", 1001, 53, 64, "udp"),
        probe_array("192.0.2.3", 1002, 53, 64, "udp"),
    ];
    let batches = deserialize_probes_batch(&probes, 100).unwrap();
    assert_eq!(batches.len(), 2);
    assert_eq!(batches[0].len(), 96);
    assert_eq!(batches[1].len(), 48);
    for batch in &batches {
        assert!(batch.len() <= 100);
    }

    // concatenating the batches gives the records in input order
    let joined: Vec<u8> = batches.concat();
    let mut singles: Vec<u8> = Vec::new();
    for p in &probes {
        singles.extend_from_slice(&deserialize_json_to_capnp(p).unwrap());
    }
    assert_eq!(joined, singles);

    // a record that alone exceeds the budget fails the whole batch
    assert!(deserialize_probes_batch(&probes, 10).is_err());

    // empty input yields no batches
    let none: Vec<ProbeValue> = Vec::new();
    assert_eq!(deserialize_probes_batch(&none, 100).unwrap().len(), 0);
}

fn healthy_registry(agent_id: &str) -> AgentStore {
    let mut store = AgentStore::new();
    store.add_agent(agent_id.to_string(), "secret".to_string(), NOW).unwrap();
    store.update_health(
        agent_id,
        HealthStatus { healthy: true, last_check: NOW, message: None },
        NOW,
    );
    store
}

#[test]
fn test_submit_probes_success() {
    let mut db = Database::new_mock();
    let registry = healthy_registry("agent-1");

    let request = SubmitProbesRequest {
        metadata: vec![AgentMetadata {
            id: "agent-1".to_string(),
            // IPv4 source addresses pass without prefix validation
            ip_address: Some(IpAddress::V4(u32::from_be_bytes([198, 51, 100, 7]))),
        }],
        probes: vec![
            probe_array("192.0.2.1", 1000, 53, 64, "udp"),
            probe_array("192.0.2.2", 1001, 53, 64, "tcp"),
        ],
    };

    let outcome = submit_probes(&mut db, &registry, "user@example.com", &request, NOW).unwrap();
    assert_eq!(outcome.response.probes, 2);
    assert_eq!(outcome.response.agents.len(), 1);
    assert_eq!(outcome.response.agents[0].id, "agent-1");
    assert_eq!(outcome.response.id, outcome.measurement_id_text);
    assert_eq!(outcome.batches.len(), 1);
    assert_eq!(outcome.batches[0].len(), 96);
    assert_eq!(outcome.headers.len(), 1);
    assert_eq!(outcome.headers[0].len(), 1);
    let (hk, hv) = &outcome.headers[0][0];
    assert_eq!(hk, "agent-1");
    assert_eq!(
        *hv,
        format!(
            "{{\"src_ip\":\"198.51.100.7\",\"measurement_id\":\"{}\",\"end_of_measurement\":true}}",
            outcome.measurement_id_text
        )
    );

    // one tracking row was opened, booking the submitted probe count
    assert_eq!(db.measurement_tracking.len(), 1);
    assert_eq!(db.measurement_tracking[0].expected_probes, 2);
    assert_eq!(db.measurement_tracking[0].sent_probes, 0);
    assert!(!db.measurement_tracking[0].is_complete);
}

#[test]
fn test_submit_probes_refusals() {
    let registry = healthy_registry("agent-1");

    // empty probe list
    let mut db = Database::new_mock();
    let empty = SubmitProbesRequest { metadata: vec![], probes: vec![] };
    let e = submit_probes(&mut db, &registry, "u", &empty, NOW).unwrap_err();
    assert_eq!(e.status, 400);
    assert_eq!(e.message, "Probe list cannot be empty");

    // invalid probe
    let bad = SubmitProbesRequest {
        metadata: vec![],
        probes: vec![probe_array("192.0.2.1", 0, 53, 64, "tcp")],
    };
    let e = submit_probes(&mut db, &registry, "u", &bad, NOW).unwrap_err();
    assert_eq!(e.status, 400);
    assert_eq!(
        e.message,
        "Probe validation failed: Probe at index 0: Invalid source port: 0"
    );

    // metadata without an address
    let no_ip = SubmitProbesRequest {
        metadata: vec![AgentMetadata { id: "agent-1".to_string(), ip_address: None }],
        probes: vec![probe_array("192.0.2.1", 1000, 53, 64, "tcp")],
    };
    let e = submit_probes(&mut db, &registry, "u", &no_ip, NOW).unwrap_err();
    assert_eq!(e.status, 400);
    assert_eq!(e.message, "IP address is required for agent 'agent-1'");

    // no healthy agent
    let unknown = SubmitProbesRequest {
        metadata: vec![AgentMetadata {
            id: "nobody".to_string(),
            ip_address: Some(IpAddress::V4(1)),
        }],
        probes: vec![probe_array("192.0.2.1", 1000, 53, 64, "tcp")],
    };
    let e = submit_probes(&mut db, &registry, "u", &unknown, NOW).unwrap_err();
    assert_eq!(e.status, 400);
    assert_eq!(e.message, "No healthy agents found for the requested measurement");
    // no refusal opened a tracking row
    assert_eq!(db.measurement_tracking.len(), 0);
}

#[test]
fn test_submit_probes_quota() {
    // limit 100, 60 probes already booked today: 30 passes, 41 is refused
    let registry = healthy_registry("agent-1");
    let mut db = Database::new_mock();
    let subject = "quota-user";
    db.set_user_limit(subject, 100, NOW).unwrap();
    let hash = saimiris_gateway::hash_user_identifier(subject);
    db.create_measurement_tracking(&hash, 1, "agent-0", 60, NOW).unwrap();

    let mk = |n: usize| SubmitProbesRequest {
        metadata: vec![AgentMetadata {
            id: "agent-1".to_string(),
            ip_address: Some(IpAddress::V4(2)),
        }],
        probes: (0..n).map(|i| probe_array("192.0.2.1", 1000 + i as u64, 53, 64, "udp")).collect(),
    };

    let ok = submit_probes(&mut db, &registry, subject, &mk(30), NOW);
    assert!(ok.is_ok());

    let e = submit_probes(&mut db, &registry, subject, &mk(41), NOW).unwrap_err();
    assert_eq!(e.status, 429);
    assert_eq!(e.message, "Daily probe limit exceeded");
}

#[test]
fn test_submit_probes_prefix_policy() {
    // an IPv6 source outside the user's sub-prefix is forbidden
    let mut registry = healthy_registry("agent-1");
    registry.update_config(
        "agent-1",
        vec![AgentConfig {
            src_ipv6_prefix: Some("2001:db8:1234::/48".to_string()),
            ..Default::default()
        }],
        NOW,
    );
    let mut db = Database::new_mock();

    let request = SubmitProbesRequest {
        metadata: vec![AgentMetadata {
            id: "agent-1".to_string(),
            ip_address: Some(IpAddress::V6(0x2001_0db8_1234_9999_8888_0000_0000_0001)),
        }],
        probes: vec![probe_array("192.0.2.1", 1000, 53, 64, "udp")],
    };
    let e = submit_probes(&mut db, &registry, "prefix-user", &request, NOW).unwrap_err();
    assert_eq!(e.status, 403);
    assert!(e.message.starts_with("IP address "));
    assert!(e.message.ends_with(" is not within your allocated prefix"));
}

#[test]
fn test_uuid_text_roundtrip() {
    let samples: [u128; 3] = [0, 0x0123_4567_89ab_cdef_0123_4567_89ab_cdef, u128::MAX];
    for id in samples {
        let text = uuid_text(id);
        assert_eq!(text.len(), 36);
        assert_eq!(parse_uuid(&text), Some(id));
    }
    assert_eq!(
        uuid_text(0x0123_4567_89ab_cdef_0123_4567_89ab_cdef),
        "01234567-89ab-cdef-0123-456789abcdef"
    );
    assert_eq!(parse_uuid("not-a-uuid"), None);
    assert_eq!(parse_uuid("01234567-89ab-cdef-0123-456789abcdeg"), None);
}

#[test]
fn test_extract_bearer_token_cases() {
    assert_eq!(extract_bearer_token(Some("Bearer tok")).unwrap(), "tok");
    let e = extract_bearer_token(None).unwrap_err();
    assert_eq!(e.status_code, 401);
    assert_eq!(e.message, "Authorization header is missing");
    let e = extract_bearer_token(Some("Basic abc")).unwrap_err();
    assert_eq!(e.status_code, 401);
    assert_eq!(e.message, "Authorization header must start with \"Bearer \"");
}

#[test]
fn test_agent_key_matches_cases() {
    assert!(agent_key_matches(Some("Bearer the-key"), "the-key"));
    assert!(!agent_key_matches(Some("Bearer wrong"), "the-key"));
    assert!(!agent_key_matches(Some("the-key"), "the-key"));
    assert!(!agent_key_matches(None, "the-key"));
}

#[test]
fn test_measurement_status_core_scenario() {
    // three rows with expected (50, 50, 50), sent (50, 25, 0) and
    // completion (true, false, true): 2 of 3 complete, totals 150 and 75
    let mut db = Database::new_mock();
    let subject = "status-user";
    let hash = saimiris_gateway::hash_user_identifier(subject);
    let mid: u128 = 0xabcd;
    let mid_text = uuid_text(mid);
    for (agent, expected) in [("a1", 50), ("a2", 50), ("a3", 50)] {
        db.create_measurement_tracking(&hash, mid, agent, expected, NOW).unwrap();
    }
    db.update_measurement_probe_count(mid, &hash, "a1", 50, true, NOW).unwrap();
    db.update_measurement_probe_count(mid, &hash, "a2", 25, false, NOW).unwrap();
    db.update_measurement_probe_count(mid, &hash, "a3", 0, true, NOW).unwrap();

    let (status, rows) =
        saimiris_gateway::submit::measurement_status_core(&db, &mid_text, subject).unwrap();
    assert_eq!(status.total_agents, 3);
    assert_eq!(status.completed_agents, 2);
    assert_eq!(status.total_expected_probes, 150);
    assert_eq!(status.total_sent_probes, 75);
    assert!(!status.measurement_complete);
    assert_eq!(rows.len(), 3);

    // an unknown measurement is not found
    let missing = saimiris_gateway::submit::measurement_status_core(
        &db,
        &uuid_text(0xffff),
        subject,
    );
    assert_eq!(missing.unwrap_err().status, 404);

    // a malformed id is refused
    let bad = saimiris_gateway::submit::measurement_status_core(&db, "nope", subject);
    assert_eq!(bad.unwrap_err().status, 400);
}

#[test]
fn test_update_measurement_status_core_scenario() {
    let mut db = Database::new_mock();
    let hash = "row-hash";
    let mid: u128 = 0x77;
    let mid_text = uuid_text(mid);
    db.create_measurement_tracking(hash, mid, "agent-9", 10, NOW).unwrap();

    let row = saimiris_gateway::submit::update_measurement_status_core(
        &mut db, "agent-9", &mid_text, 10, true, NOW,
    )
    .unwrap();
    assert_eq!(row.sent_probes, 10);
    assert!(row.is_complete);

    // completion stays once set
    let row = saimiris_gateway::submit::update_measurement_status_core(
        &mut db, "agent-9", &mid_text, 3, false, NOW + 1,
    )
    .unwrap();
    assert_eq!(row.sent_probes, 3);
    assert!(row.is_complete);

    // an unknown agent's report is not found
    let e = saimiris_gateway::submit::update_measurement_status_core(
        &mut db, "other", &mid_text, 1, false, NOW,
    )
    .unwrap_err();
    assert_eq!(e.status, 404);
}

#[test]
fn test_user_info_and_prefixes_cores() {
    let mut db = Database::new_mock();
    let subject = "info-user";
    let info = saimiris_gateway::submit::user_info_core(&mut db, subject, NOW).unwrap();
    assert_eq!(info.used, 0);
    assert_eq!(info.limit, 10000);
    assert_eq!(info.submission_count, 0);

    let mut registry = healthy_registry("agent-1");
    registry.update_config(
        "agent-1",
        vec![AgentConfig {
            src_ipv6_prefix: Some("2001:db8:1234::/48".to_string()),
            ..Default::default()
        }],
        NOW,
    );
    let report = saimiris_gateway::submit::user_prefixes_core(&registry, 0x12345678);
    assert_eq!(report.len(), 1);
    assert_eq!(report[0].agent_id, "agent-1");
    assert_eq!(report[0].prefixes.len(), 1);
    assert_eq!(report[0].prefixes[0].agent_prefix, "2001:db8:1234::/48");
    assert_eq!(report[0].prefixes[0].user_prefix, "2001:db8:1234:1234:5678::/80");
}

#[test]
fn test_agent_key_matches_near_misses() {
    // differs only in the last character
    assert!(!agent_key_matches(Some("Bearer the-kex"), "the-key"));
    // differs only in the first character
    assert!(!agent_key_matches(Some("Bearer xhe-key"), "the-key"));
    // a prefix of the key, and the key extended
    assert!(!agent_key_matches(Some("Bearer the-ke"), "the-key"));
    assert!(!agent_key_matches(Some("Bearer the-keyy"), "the-key"));
    // the exact key still passes
    assert!(agent_key_matches(Some("Bearer the-key"), "the-key"));
}
