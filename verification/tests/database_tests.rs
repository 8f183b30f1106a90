use saimiris_gateway::database::Database;
use saimiris_gateway::hash_user_identifier;

const NOW: i64 = 1_700_000_000;

#[test]
fn test_hash_user_id() {
    let user_id = "test-user-123";
    let hash1 = hash_user_identifier(user_id);
    let hash2 = hash_user_identifier(user_id);

    // Same input should produce same hash
    assert_eq!(hash1, hash2);

    // Hash should be 64 characters (32 bytes * 2 hex chars)
    assert_eq!(hash1.len(), 64);

    // Different inputs should produce different hashes
    let different_hash = hash_user_identifier("different-user");
    assert_ne!(hash1, different_hash);

    // the known digest of the empty subject
    assert_eq!(
        hash_user_identifier(""),
        "e3b0c44298fc1c149afbf4c8996fb92427ae41e4649b934ca495991b7852b855"
    );
}

#[test]
fn test_mock_database() {
    let mut db = Database::new_mock();

    db.initialize().unwrap();

    let user_id = "test-user";
    let probe_count = 5;
    let measurement_id: u128 = 0x1234_5678_9abc_def0;
    let agent_id = "test-agent";

    let _tracking = db
        .create_measurement_tracking(&hash_user_identifier(user_id), measurement_id, agent_id, 5, NOW)
        .unwrap();

    let _updated = db
        .update_measurement_probe_count(
            measurement_id,
            &hash_user_identifier(user_id),
            agent_id,
            probe_count,
            true,
            NOW,
        )
        .unwrap();

    let stats = db.get_user_usage_stats(user_id, None, None, NOW).unwrap();
    assert_eq!(stats.submission_count, 1);
    assert_eq!(stats.total_probes, 5);
    assert!(stats.last_submitted.is_some(), "last_submitted should be set");

    let recent = db.get_recent_usage(Some(10)).unwrap();
    assert_eq!(recent.len(), 1);
    assert_eq!(recent[0].probe_count, probe_count);
}

#[test]
fn test_user_limits() {
    let mut db = Database::new_mock();
    db.initialize().unwrap();

    let user_id = "test-user";

    // Default limit (no limit set)
    let limit = db.get_user_limit(user_id).unwrap();
    assert!(limit.is_none());

    // Setting a user limit
    let new_limit = db.set_user_limit(user_id, 5000, NOW).unwrap();
    assert_eq!(new_limit.probe_limit, 5000);
    assert_eq!(new_limit.user_hash, hash_user_identifier(user_id));

    // Getting the user limit
    let retrieved_limit = db.get_user_limit(user_id).unwrap();
    assert!(retrieved_limit.is_some());
    let retrieved_limit = retrieved_limit.unwrap();
    assert_eq!(retrieved_limit.probe_limit, 5000);
    assert_eq!(retrieved_limit.user_hash, hash_user_identifier(user_id));

    // Updating the user limit keeps created_at
    let updated_limit = db.set_user_limit(user_id, 8000, NOW + 10).unwrap();
    assert_eq!(updated_limit.probe_limit, 8000);
    assert!(updated_limit.updated_at >= updated_limit.created_at);

    // Stats include the custom limit
    let stats = db.get_user_usage_stats(user_id, None, None, NOW + 10).unwrap();
    assert_eq!(stats.limit, 8000);
}

#[test]
fn test_rate_limiting() {
    let mut db = Database::new_mock();
    db.initialize().unwrap();

    let user_id = "test-user";

    db.set_user_limit(user_id, 100, NOW).unwrap();

    let can_submit = db.can_user_submit_probes(user_id, 50, None, NOW).unwrap();
    assert!(can_submit);

    // Record usage via measurement tracking
    let measurement_id: u128 = 7;
    let agent_id = "test-agent";
    let _tracking = db
        .create_measurement_tracking(&hash_user_identifier(user_id), measurement_id, agent_id, 60, NOW)
        .unwrap();
    let _updated = db
        .update_measurement_probe_count(
            measurement_id,
            &hash_user_identifier(user_id),
            agent_id,
            60,
            true,
            NOW,
        )
        .unwrap();

    // Still within limit
    let can_submit = db.can_user_submit_probes(user_id, 30, None, NOW).unwrap();
    assert!(can_submit);

    // Cannot exceed limit
    let can_submit = db.can_user_submit_probes(user_id, 50, None, NOW).unwrap();
    assert!(!can_submit);

    // Exactly at limit
    let can_submit = db.can_user_submit_probes(user_id, 40, None, NOW).unwrap();
    assert!(can_submit);

    // One over limit
    let can_submit = db.can_user_submit_probes(user_id, 41, None, NOW).unwrap();
    assert!(!can_submit);
}

#[test]
fn test_default_limit_behavior() {
    let mut db = Database::new_mock();
    db.initialize().unwrap();

    let user_id = "test-user";

    let stats = db.get_user_usage_stats(user_id, None, None, NOW).unwrap();
    assert_eq!(stats.limit, 10000);

    let can_submit = db.can_user_submit_probes(user_id, 5000, None, NOW).unwrap();
    assert!(can_submit);

    let can_submit = db.can_user_submit_probes(user_id, 15000, None, NOW).unwrap();
    assert!(!can_submit);
}

#[test]
fn test_repository_error_variants() {
    let mut db = Database::new_mock();

    // a hash can claim a tag once
    db.create_user_id_mapping("hash-a", 5000).unwrap();
    let e = db.create_user_id_mapping("hash-a", 6000).unwrap_err();
    assert_eq!(
        e.message(),
        "UNIQUE constraint failed: user_hash already exists"
    );

    // a tag can have one holder
    let e = db.create_user_id_mapping("hash-b", 5000).unwrap_err();
    assert_eq!(e.message(), "UNIQUE constraint failed: user_id already exists");

    // one tracking row per (measurement, agent)
    db.create_measurement_tracking("h", 1, "agent", 5, NOW).unwrap();
    let e = db.create_measurement_tracking("h2", 1, "agent", 5, NOW).unwrap_err();
    assert_eq!(
        e.message(),
        "UNIQUE constraint failed: measurement_id and agent_id already exist"
    );

    // updates need an existing row
    let e = db
        .update_measurement_probe_count(2, "h", "agent", 1, false, NOW)
        .unwrap_err();
    assert_eq!(
        e.message(),
        "no rows returned by a query that expected to return at least one row"
    );
}

#[test]
fn test_daily_rate_limiting() {
    let mut db = Database::new_mock();
    db.initialize().unwrap();

    let user_id = "test-user";

    db.set_user_limit(user_id, 100, NOW).unwrap();

    let today_start = NOW - NOW % 86400;

    // Today's stats start at zero
    let stats = db
        .get_user_usage_stats(user_id, Some(today_start), None, NOW)
        .unwrap();
    assert_eq!(stats.total_probes, 0);
    assert_eq!(stats.limit, 100);

    // Record usage today
    let measurement_id: u128 = 9;
    let agent_id = "test-agent";
    let _tracking = db
        .create_measurement_tracking(&hash_user_identifier(user_id), measurement_id, agent_id, 50, NOW)
        .unwrap();
    let _updated = db
        .update_measurement_probe_count(
            measurement_id,
            &hash_user_identifier(user_id),
            agent_id,
            50,
            true,
            NOW,
        )
        .unwrap();

    let stats = db
        .get_user_usage_stats(user_id, Some(today_start), None, NOW)
        .unwrap();
    assert_eq!(stats.total_probes, 50);

    let can_submit = db.can_user_submit_probes(user_id, 30, None, NOW).unwrap();
    assert!(can_submit); // 50 + 30 = 80 <= 100

    let can_submit = db.can_user_submit_probes(user_id, 60, None, NOW).unwrap();
    assert!(!can_submit); // 50 + 60 = 110 > 100

    let stats = db.get_user_usage_stats(user_id, None, None, NOW).unwrap();
    assert_eq!(stats.total_probes, 50);
}

#[test]
fn test_measurement_tracking() {
    let mut db = Database::new_mock();
    db.initialize().unwrap();

    let measurement_id: u128 = 77;
    let user_hash = "test_user_hash";
    let agent1_id = "agent1";
    let agent2_id = "agent2";

    let tracking1 = db
        .create_measurement_tracking(user_hash, measurement_id, agent1_id, 100, NOW)
        .unwrap();

    let _tracking2 = db
        .create_measurement_tracking(user_hash, measurement_id, agent2_id, 100, NOW)
        .unwrap();

    assert_eq!(tracking1.measurement_id, measurement_id);
    assert_eq!(tracking1.agent_id, agent1_id);
    assert_eq!(tracking1.expected_probes, 100);
    assert_eq!(tracking1.sent_probes, 0);
    assert!(!tracking1.is_complete);

    // Partial completion for agent1
    let updated_tracking1 = db
        .update_measurement_probe_count(measurement_id, user_hash, agent1_id, 50, false, NOW)
        .unwrap();

    assert_eq!(updated_tracking1.sent_probes, 50);
    assert!(!updated_tracking1.is_complete);

    // Completing agent1
    let completed_tracking1 = db
        .update_measurement_probe_count(measurement_id, user_hash, agent1_id, 100, true, NOW)
        .unwrap();

    assert_eq!(completed_tracking1.sent_probes, 100);
    assert!(completed_tracking1.is_complete);

    // Status shows 1 of 2 agents complete
    let status = db
        .get_measurement_status(measurement_id, user_hash)
        .unwrap()
        .unwrap();

    assert_eq!(status.total_agents, 2);
    assert_eq!(status.completed_agents, 1);
    assert_eq!(status.total_expected_probes, 200);
    assert_eq!(status.total_sent_probes, 100);
    assert!(!status.measurement_complete);

    // Complete agent2
    db.update_measurement_probe_count(measurement_id, user_hash, agent2_id, 100, true, NOW)
        .unwrap();

    let final_status = db
        .get_measurement_status(measurement_id, user_hash)
        .unwrap()
        .unwrap();

    assert_eq!(final_status.completed_agents, 2);
    assert_eq!(final_status.total_sent_probes, 200);
    assert!(final_status.measurement_complete);

    let tracking_details = db
        .get_measurement_tracking(measurement_id, user_hash)
        .unwrap();

    assert_eq!(tracking_details.len(), 2);
    for tracking in &tracking_details {
        assert_eq!(tracking.sent_probes, 100);
        assert!(tracking.is_complete);
    }
}

#[test]
fn test_per_agent_completion_tracking() {
    let mut db = Database::new_mock();
    db.initialize().unwrap();

    let measurement_id: u128 = 88;
    let user_hash = "test_user_hash";
    let agent1_id = "fast_agent";
    let agent2_id = "slow_agent";
    let agent3_id = "failing_agent";

    for agent_id in [agent1_id, agent2_id, agent3_id] {
        db.create_measurement_tracking(user_hash, measurement_id, agent_id, 50, NOW)
            .unwrap();
    }

    // Agent1 completes quickly
    db.update_measurement_probe_count(measurement_id, user_hash, agent1_id, 50, true, NOW)
        .unwrap();

    // Agent2 makes partial progress
    db.update_measurement_probe_count(measurement_id, user_hash, agent2_id, 25, false, NOW)
        .unwrap();

    // Agent3 fails (0 probes sent)
    db.update_measurement_probe_count(measurement_id, user_hash, agent3_id, 0, true, NOW)
        .unwrap();

    let status = db
        .get_measurement_status(measurement_id, user_hash)
        .unwrap()
        .unwrap();

    assert_eq!(status.total_agents, 3);
    assert_eq!(status.completed_agents, 2);
    assert_eq!(status.total_expected_probes, 150);
    assert_eq!(status.total_sent_probes, 75);
    assert!(!status.measurement_complete);

    let tracking_details = db
        .get_measurement_tracking(measurement_id, user_hash)
        .unwrap();

    let agent1_tracking = tracking_details.iter().find(|t| t.agent_id == agent1_id).unwrap();
    let agent2_tracking = tracking_details.iter().find(|t| t.agent_id == agent2_id).unwrap();
    let agent3_tracking = tracking_details.iter().find(|t| t.agent_id == agent3_id).unwrap();

    assert_eq!(agent1_tracking.sent_probes, 50);
    assert!(agent1_tracking.is_complete);

    assert_eq!(agent2_tracking.sent_probes, 25);
    assert!(!agent2_tracking.is_complete);

    assert_eq!(agent3_tracking.sent_probes, 0);
    assert!(agent3_tracking.is_complete);

    // Agent2 finishes
    db.update_measurement_probe_count(measurement_id, user_hash, agent2_id, 50, true, NOW)
        .unwrap();

    let final_status = db
        .get_measurement_status(measurement_id, user_hash)
        .unwrap()
        .unwrap();

    assert!(final_status.measurement_complete);
    assert_eq!(final_status.completed_agents, 3);
    assert_eq!(final_status.total_sent_probes, 100);
}

#[test]
fn test_database_integration() {
    let mut db = Database::new_mock();

    db.initialize().unwrap();

    let user_id = "integrate_test_user";
    let measurement_id: u128 = 99;

    let limit = db.set_user_limit(user_id, 500, NOW).unwrap();
    assert_eq!(limit.probe_limit, 500);

    let retrieved_limit = db.get_user_limit(user_id).unwrap().unwrap();
    assert_eq!(retrieved_limit.probe_limit, 500);

    let agent_id = "test_agent";
    let user_hash = &hash_user_identifier(user_id);
    let tracking = db
        .create_measurement_tracking(user_hash, measurement_id, agent_id, 50, NOW)
        .unwrap();
    assert_eq!(tracking.expected_probes, 50);
    assert_eq!(tracking.sent_probes, 0);
    assert!(!tracking.is_complete);

    let updated_tracking = db
        .update_measurement_probe_count(measurement_id, user_hash, agent_id, 50, true, NOW)
        .unwrap();
    assert_eq!(updated_tracking.sent_probes, 50);
    assert!(updated_tracking.is_complete);

    let status = db
        .get_measurement_status(measurement_id, user_hash)
        .unwrap()
        .unwrap();
    assert_eq!(status.total_agents, 1);
    assert_eq!(status.completed_agents, 1);
    assert_eq!(status.total_expected_probes, 50);
    assert_eq!(status.total_sent_probes, 50);
    assert!(status.measurement_complete);

    let stats = db.get_user_usage_stats(user_id, None, None, NOW).unwrap();
    assert_eq!(stats.total_probes, 50);
    assert_eq!(stats.limit, 500);
    assert_eq!(stats.submission_count, 1);
}

#[test]
fn test_completion_is_monotone() {
    let mut db = Database::new_mock();
    let user_hash = "h";
    let mid: u128 = 5;
    db.create_measurement_tracking(user_hash, mid, "a", 10, NOW).unwrap();
    db.update_measurement_probe_count(mid, user_hash, "a", 10, true, NOW).unwrap();
    // a later update may adjust the sent count but cannot un-complete
    let row = db
        .update_measurement_probe_count(mid, user_hash, "a", 4, false, NOW + 5)
        .unwrap();
    assert_eq!(row.sent_probes, 4);
    assert!(row.is_complete);
}

#[test]
fn test_tracking_rows_sorted_by_created_at() {
    let mut db = Database::new_mock();
    let user_hash = "h";
    let mid: u128 = 7;
    // rows arrive out of creation order (clocks differ across callers)
    db.create_measurement_tracking(user_hash, mid, "agent-late", 30, NOW + 300).unwrap();
    db.create_measurement_tracking(user_hash, mid, "agent-early", 10, NOW + 100).unwrap();
    db.create_measurement_tracking(user_hash, mid, "agent-mid", 20, NOW + 200).unwrap();

    let rows = db.get_measurement_tracking(mid, user_hash).unwrap();
    assert_eq!(rows.len(), 3);
    assert_eq!(rows[0].agent_id, "agent-early");
    assert_eq!(rows[1].agent_id, "agent-mid");
    assert_eq!(rows[2].agent_id, "agent-late");
    assert!(rows[0].created_at <= rows[1].created_at);
    assert!(rows[1].created_at <= rows[2].created_at);
}

#[test]
fn test_tracking_rows_equal_stamps_keep_insertion_order() {
    let mut db = Database::new_mock();
    let user_hash = "h";
    let mid: u128 = 8;
    db.create_measurement_tracking(user_hash, mid, "first", 1, NOW).unwrap();
    db.create_measurement_tracking(user_hash, mid, "second", 2, NOW).unwrap();
    db.create_measurement_tracking(user_hash, mid, "third", 3, NOW).unwrap();

    let rows = db.get_measurement_tracking(mid, user_hash).unwrap();
    assert_eq!(rows.len(), 3);
    assert_eq!(rows[0].agent_id, "first");
    assert_eq!(rows[1].agent_id, "second");
    assert_eq!(rows[2].agent_id, "third");
}

#[test]
fn test_set_user_limit_leaves_other_users() {
    let mut db = Database::new_mock();
    let first = "user-one";
    let second = "user-two";
    db.set_user_limit(first, 100, NOW).unwrap();
    db.set_user_limit(second, 200, NOW).unwrap();
    let before = db.get_user_limit(second).unwrap().unwrap();

    // changing the first user's limit touches no other row
    db.set_user_limit(first, 999, NOW + 50).unwrap();
    let after = db.get_user_limit(second).unwrap().unwrap();
    assert_eq!(after.id, before.id);
    assert_eq!(after.probe_limit, 200);
    assert_eq!(after.created_at, before.created_at);
    assert_eq!(after.updated_at, before.updated_at);
}

#[test]
fn test_recent_usage_lists_every_pair() {
    let mut db = Database::new_mock();
    db.create_measurement_tracking("ha", 1, "a1", 10, NOW).unwrap();
    db.create_measurement_tracking("hb", 2, "a1", 20, NOW + 1).unwrap();
    db.create_measurement_tracking("hc", 3, "a1", 30, NOW + 2).unwrap();
    db.update_measurement_probe_count(1, "ha", "a1", 10, true, NOW + 3).unwrap();

    // every distinct (measurement, user) pair is reported, first seen first
    let all = db.get_recent_usage(Some(10)).unwrap();
    assert_eq!(all.len(), 3);
    assert_eq!(all[0].id, 1);
    assert_eq!(all[0].probe_count, 10);
    assert_eq!(all[1].id, 2);
    assert_eq!(all[2].id, 3);

    // only the cap cuts the list short
    let capped = db.get_recent_usage(Some(2)).unwrap();
    assert_eq!(capped.len(), 2);
    assert_eq!(capped[0].id, 1);
    assert_eq!(capped[1].id, 2);
}
