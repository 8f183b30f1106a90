use saimiris_gateway::database::Database;
use saimiris_gateway::{get_or_create_user_id, hash_user_identifier, validate_user_ipv6, Ipv6Address};

#[test]
fn test_validate_user_ipv6_valid() {
    let agent_prefix = "2001:db8::/48";
    let user_id = 0x12345678u32;

    // Within the user's /80 prefix: the tag occupies segments 4 and 5
    let user_ip = Ipv6Address::new(0x2001, 0x0db8, 0x0000, 0x1234, 0x5678, 0x0000, 0x0000, 0x0001);

    assert!(validate_user_ipv6(&user_ip, agent_prefix, user_id));
}

#[test]
fn test_validate_user_ipv6_invalid() {
    let agent_prefix = "2001:db8::/48";
    let user_id = 0x12345678u32;

    // Wrong tag bits
    let user_ip = Ipv6Address::new(0x2001, 0x0db8, 0x0000, 0x9999, 0x8888, 0x0000, 0x0000, 0x0001);

    assert!(!validate_user_ipv6(&user_ip, agent_prefix, user_id));
}

#[test]
fn test_validate_user_ipv6_wrong_agent_prefix() {
    let agent_prefix = "2001:db8::/48";
    let user_id = 0x12345678u32;

    // An address from a different agent prefix
    let user_ip = Ipv6Address::new(0x2001, 0x0dc8, 0x0000, 0x1234, 0x5678, 0x0000, 0x0000, 0x0001);

    assert!(!validate_user_ipv6(&user_ip, agent_prefix, user_id));
}

#[test]
fn test_validate_user_ipv6_invalid_prefix_format() {
    let agent_prefix = "invalid_prefix";
    let user_id = 0x12345678u32;

    let user_ip = Ipv6Address::new(0x2001, 0x0db8, 0x0000, 0x1234, 0x5678, 0x0000, 0x0000, 0x0001);

    assert!(!validate_user_ipv6(&user_ip, agent_prefix, user_id));
}

#[test]
fn test_hash_user_identifier_consistency() {
    let user_id = "test_user@example.com";
    let hash1 = hash_user_identifier(user_id);
    let hash2 = hash_user_identifier(user_id);

    // Same input should produce same hash
    assert_eq!(hash1, hash2);

    // Hash should be 64 characters (32 bytes * 2 hex chars)
    assert_eq!(hash1.len(), 64);

    // Different users should have different hashes
    let different_user = "different_user@example.com";
    let different_hash = hash_user_identifier(different_user);
    assert_ne!(hash1, different_hash, "Different users should have different hashes");
}

#[test]
fn test_async_user_id_assignment() {
    let mut db = Database::new_mock();

    let user1 = "user1@example.com";
    let user2 = "user2@example.com";

    let id1_first = get_or_create_user_id(&mut db, user1).unwrap();
    let id2_first = get_or_create_user_id(&mut db, user2).unwrap();

    // Different users should get different IDs
    assert_ne!(id1_first, id2_first);

    // Same user should get the same ID on subsequent calls
    let id1_second = get_or_create_user_id(&mut db, user1).unwrap();
    let id2_second = get_or_create_user_id(&mut db, user2).unwrap();

    assert_eq!(id1_first, id1_second);
    assert_eq!(id2_first, id2_second);
}

#[test]
fn test_concurrent_user_creation() {
    let mut database = Database::new_mock();
    let user_identifier = "test-user-concurrent";

    // Ten callers racing for the same previously-unknown subject all
    // converge on one tag; here they run back to back against one store.
    let mut user_ids = Vec::new();
    for _ in 0..10 {
        let result = get_or_create_user_id(&mut database, user_identifier);
        user_ids.push(result.unwrap());
    }

    assert!(!user_ids.is_empty(), "No user IDs were generated");
    let first_user_id = user_ids[0];
    for user_id in &user_ids {
        assert_eq!(
            *user_id, first_user_id,
            "All concurrent requests should get the same user ID"
        );
    }

    // The mapping holds exactly one row for the subject
    let user_hash = hash_user_identifier(user_identifier);
    let stored_user_id = database.get_user_id_by_hash(&user_hash).unwrap();
    assert_eq!(stored_user_id, Some(first_user_id), "User ID should be stored in database");
    assert_eq!(database.user_id_mappings.len(), 1);
}

#[test]
fn test_single_user_creation() {
    let mut database = Database::new_mock();
    let user_identifier = "test-user-single";

    let user_id1 = get_or_create_user_id(&mut database, user_identifier).unwrap();
    let user_id2 = get_or_create_user_id(&mut database, user_identifier).unwrap();

    assert_eq!(user_id1, user_id2, "Same user should get same ID on subsequent calls");

    let user_hash = hash_user_identifier(user_identifier);
    let stored_user_id = database.get_user_id_by_hash(&user_hash).unwrap();
    assert_eq!(stored_user_id, Some(user_id1), "User ID should be stored in database");
}

#[test]
fn test_tag_range() {
    let mut db = Database::new_mock();
    let tag = get_or_create_user_id(&mut db, "any-user").unwrap();
    assert!((1000..=0xFFFF_FF00).contains(&tag));
}

#[test]
fn test_first_touch_uses_deterministic_tag() {
    let mut db = Database::new_mock();
    let subject = "fresh-subject";
    let hash = hash_user_identifier(subject);
    let candidate = saimiris_gateway::generate_deterministic_user_id(&hash);

    // with the candidate free, first touch assigns exactly it
    let tag = get_or_create_user_id(&mut db, subject).unwrap();
    assert_eq!(tag, candidate);

    // with the candidate held by another user, first touch still succeeds
    // with some other free tag
    let mut db2 = Database::new_mock();
    db2.create_user_id_mapping("someone-else", candidate).unwrap();
    let other = get_or_create_user_id(&mut db2, subject).unwrap();
    assert_ne!(other, candidate);
    assert!((1000..=0xFFFF_FF00).contains(&other));
}
