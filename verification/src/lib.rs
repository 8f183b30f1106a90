//! Control-plane gateway library for a distributed network-measurement
//! platform: probe transcoding and batching, user-tag issuance, IPv6
//! sub-prefix arithmetic, quota accounting, and measurement tracking.
pub mod agent;
pub mod database;
pub mod ip;
pub mod jwt;
pub mod kafka;
pub mod prefix;
pub mod probe;
pub mod submit;
pub mod text;
pub mod user;
pub mod wrappers;

pub use prefix::{calculate_user_prefix, calculate_user_prefix_addr, validate_user_ipv6, Ipv6Address};
pub use user::{generate_deterministic_user_id, hash_user_identifier};

use crate::database::{Database, DbError};
use crate::user::{spec_deterministic_tag, spec_user_hash, MAX_USER_TAG, MIN_USER_TAG};
use vstd::prelude::*;
use vstd::string::StringSliceAdditionalSpecFns;

verus! {

/// A fresh random tag candidate within the valid range, for when the
/// deterministic candidate collides.
fn generate_random_user_id() -> (r: u32)
    ensures
        MIN_USER_TAG <= r <= MAX_USER_TAG,
{
    crate::wrappers::random_tag(MIN_USER_TAG, MAX_USER_TAG)
}

/// Returns the user's stable 32-bit tag, assigning one on first touch: the
/// deterministic candidate from the user hash first, then random draws on
/// tag collisions, bounded at a hundred attempts. A user that already has
/// a tag always gets that same tag back, with nothing changed; a user
/// whose deterministic candidate is free gets exactly that candidate, so
/// the call can fail only when the candidate is already held by another
/// user and every random draw collided too.
pub fn get_or_create_user_id(database: &mut Database, user_identifier: &str) -> (r: Result<
    u32,
    String,
>)
    requires
        old(database).wf(),
    ensures
        final(database).wf(),
        ({
            let hash = spec_user_hash(user_identifier.spec_bytes());
            match r {
                Ok(tag) => {
                    &&& final(database).spec_tag_of(hash) == Some(tag)
                    &&& (old(database).spec_tag_of(hash) matches Some(t) ==> tag == t && *final(database) == *old(database))
                    &&& (old(database).spec_tag_of(hash) is None ==> {
                        &&& MIN_USER_TAG <= tag <= MAX_USER_TAG
                        &&& !old(database).spec_tag_taken(tag)
                        &&& (!old(database).spec_tag_taken(spec_deterministic_tag(hash)) ==> tag
                            == spec_deterministic_tag(hash))
                        &&& final(database).user_id_mappings@.drop_last() == old(database).user_id_mappings@
                        &&& final(database).user_id_mappings@.len() == old(database).user_id_mappings@.len() + 1
                        &&& final(database).user_limits == old(database).user_limits
                        &&& final(database).measurement_tracking == old(database).measurement_tracking
                        &&& final(database).records == old(database).records
                    })
                },
                Err(e) => {
                    &&& e@ == "Failed to generate unique user ID after 100 attempts"@
                    &&& old(database).spec_tag_of(hash) is None
                    &&& old(database).spec_tag_taken(spec_deterministic_tag(hash))
                    &&& *final(database) == *old(database)
                },
            }
        }),
{
    let user_hash = user::hash_user_identifier(user_identifier);
    let ghost hs = user_hash@;
    match database.get_user_id_by_hash(user_hash.as_str()) {
        Ok(Some(t)) => {
            return Ok(t);
        },
        _ => {},
    }
    let mut attempt: u32 = 0;
    let mut found: Option<u32> = None;
    while attempt < 100 && found.is_none()
        invariant
            old(database).wf(),
            database.wf(),
            hs == user_hash@,
            hs == spec_user_hash(user_identifier.spec_bytes()),
            user_hash@.len() == 64,
            vstd::string::string_is_ascii(&user_hash),
            attempt <= 100,
            match found {
                None => {
                    &&& *database == *old(database)
                    &&& old(database).spec_tag_of(hs) is None
                    &&& (attempt >= 1 ==> old(database).spec_tag_taken(spec_deterministic_tag(hs)))
                },
                Some(tag) => {
                    &&& database.spec_tag_of(hs) == Some(tag)
                    &&& old(database).spec_tag_of(hs) is None
                    &&& MIN_USER_TAG <= tag <= MAX_USER_TAG
                    &&& !old(database).spec_tag_taken(tag)
                    &&& (!old(database).spec_tag_taken(spec_deterministic_tag(hs)) ==> tag
                        == spec_deterministic_tag(hs))
                    &&& database.user_id_mappings@.drop_last() == old(database).user_id_mappings@
                    &&& database.user_id_mappings@.len() == old(database).user_id_mappings@.len()
                        + 1
                    &&& database.user_limits == old(database).user_limits
                    &&& database.measurement_tracking == old(database).measurement_tracking
                    &&& database.records == old(database).records
                },
            },
        decreases 100 - attempt,
    {
        let candidate = if attempt == 0 {
            user::generate_deterministic_user_id(user_hash.as_str())
        } else {
            generate_random_user_id()
        };
        match database.create_user_id_mapping(user_hash.as_str(), candidate) {
            Ok(_) => {
                found = Some(candidate);
            },
            Err(DbError::UniqueUserHash) => {
                // another writer claimed this hash first: adopt its tag
                match database.get_user_id_by_hash(user_hash.as_str()) {
                    Ok(Some(t)) => {
                        found = Some(t);
                    },
                    _ => {},
                }
            },
            Err(_) => {
                // tag collision: draw a fresh tag and try again
            },
        }
        attempt += 1;
    }
    match found {
        Some(tag) => Ok(tag),
        None => Err(String::from_str("Failed to generate unique user ID after 100 attempts")),
    }
}

} // verus!
