//! The in-memory repository: per-user limits, the user-hash-to-tag
//! mapping, measurement-tracking rows, and the usage and status views
//! derived from them.
use crate::agent::str_eq;
use crate::user::{hash_user_identifier, spec_user_hash};
use vstd::prelude::*;
use vstd::string::StringSliceAdditionalSpecFns;

verus! {

/// The default daily probe limit for users with no configured limit.
pub const DEFAULT_PROBE_LIMIT: u32 = 10000;

/// The most tracking rows the in-memory store accepts; keeps every derived
/// sum well inside an `i64`.
pub const MAX_TRACKING_ROWS: usize = 0x1000_0000;

/// Where the repository lives.
#[derive(Debug)]
pub struct DatabaseConfig {
    pub database_url: String,
}

impl DatabaseConfig {
    pub fn new(database_url: String) -> (r: DatabaseConfig)
        ensures
            r.database_url == database_url,
    {
        DatabaseConfig { database_url }
    }
}

/// Why a repository operation was refused.
#[derive(PartialEq, Eq, Structural, Clone, Copy, Debug)]
pub enum DbError {
    UniqueUserHash,
    UniqueUserTag,
    UniqueMeasurementAgent,
    RowNotFound,
    StoreFull,
}

impl DbError {
    /// The constraint or condition the error reports.
    pub fn message(&self) -> (r: String)
        ensures
            *self is UniqueUserHash ==> r@ == "UNIQUE constraint failed: user_hash already exists"@,
            *self is UniqueUserTag ==> r@ == "UNIQUE constraint failed: user_id already exists"@,
            *self is UniqueMeasurementAgent ==> r@
                == "UNIQUE constraint failed: measurement_id and agent_id already exist"@,
            *self is RowNotFound ==> r@
                == "no rows returned by a query that expected to return at least one row"@,
            *self is StoreFull ==> r@ == "the tracking store is full"@,
    {
        match self {
            DbError::UniqueUserHash => String::from_str(
                "UNIQUE constraint failed: user_hash already exists",
            ),
            DbError::UniqueUserTag => String::from_str(
                "UNIQUE constraint failed: user_id already exists",
            ),
            DbError::UniqueMeasurementAgent => String::from_str(
                "UNIQUE constraint failed: measurement_id and agent_id already exist",
            ),
            DbError::RowNotFound => String::from_str(
                "no rows returned by a query that expected to return at least one row",
            ),
            DbError::StoreFull => String::from_str("the tracking store is full"),
        }
    }
}

/// A synthetic per-submission usage record.
#[derive(Debug)]
pub struct ProbeUsageRecord {
    pub id: u128,
    pub user_hash: String,
    pub probe_count: i32,
    pub timestamp: i64,
}

/// A user's usage over a window, with the limit that applies.
#[derive(Debug)]
pub struct UserUsageStats {
    pub user_hash: String,
    pub submission_count: u32,
    pub total_probes: u32,
    pub limit: u32,
    pub last_submitted: Option<i64>,
}

/// A configured per-user probe limit.
#[derive(Debug)]
pub struct UserLimit {
    pub id: u128,
    pub user_hash: String,
    pub probe_limit: u32,
    pub created_at: i64,
    pub updated_at: i64,
}

/// The tag assigned to a user hash.
#[derive(Debug)]
pub struct UserIdMapping {
    pub user_hash: String,
    pub user_tag: u32,
}

/// Per-(measurement, agent) progress.
#[derive(Debug)]
pub struct MeasurementTracking {
    pub id: u128,
    pub user_hash: String,
    pub measurement_id: u128,
    pub agent_id: String,
    pub expected_probes: i32,
    pub sent_probes: i32,
    pub is_complete: bool,
    pub created_at: i64,
    pub updated_at: i64,
}

impl Clone for MeasurementTracking {
    fn clone(&self) -> (r: Self)
        ensures
            r == *self,
    {
        MeasurementTracking {
            id: self.id,
            user_hash: self.user_hash.clone(),
            measurement_id: self.measurement_id,
            agent_id: self.agent_id.clone(),
            expected_probes: self.expected_probes,
            sent_probes: self.sent_probes,
            is_complete: self.is_complete,
            created_at: self.created_at,
            updated_at: self.updated_at,
        }
    }
}

/// The aggregated view of one measurement's tracking rows.
#[derive(Debug)]
pub struct MeasurementStatus {
    pub measurement_id: u128,
    pub user_hash: String,
    pub total_agents: i64,
    pub total_expected_probes: i64,
    pub total_sent_probes: i64,
    pub completed_agents: i64,
    pub measurement_complete: bool,
    pub started_at: i64,
    pub last_updated: i64,
}

// ---------------------------------------------------------------------------
// First-match indexes per table
// ---------------------------------------------------------------------------
/// Index of the mapping for a user hash, or -1.
pub open spec fn find_mapping(s: Seq<UserIdMapping>, hash: Seq<char>) -> int
    decreases s.len(),
{
    if s.len() == 0 {
        -1
    } else if s[0].user_hash@ == hash {
        0
    } else {
        let r = find_mapping(s.drop_first(), hash);
        if r < 0 {
            -1
        } else {
            r + 1
        }
    }
}

pub proof fn lemma_find_mapping(s: Seq<UserIdMapping>, hash: Seq<char>)
    ensures
        find_mapping(s, hash) >= 0 ==> {
            &&& find_mapping(s, hash) < s.len()
            &&& s[find_mapping(s, hash)].user_hash@ == hash
            &&& forall|j: int| 0 <= j < find_mapping(s, hash) ==> (#[trigger] s[j]).user_hash@
                != hash
        },
        find_mapping(s, hash) < 0 ==> forall|j: int|
            0 <= j < s.len() ==> (#[trigger] s[j]).user_hash@ != hash,
    decreases s.len(),
{
    if s.len() > 0 && s[0].user_hash@ != hash {
        let d = s.drop_first();
        lemma_find_mapping(d, hash);
        if find_mapping(d, hash) >= 0 {
            assert(s[find_mapping(s, hash)] == d[find_mapping(d, hash)]);
            assert forall|j: int| 0 <= j < find_mapping(s, hash) implies (#[trigger] s[j]).user_hash@
                != hash by {
                if j > 0 {
                    assert(d[j - 1] == s[j]);
                }
            }
        } else {
            assert forall|j: int| 0 <= j < s.len() implies (#[trigger] s[j]).user_hash@ != hash by {
                if j > 0 {
                    assert(d[j - 1] == s[j]);
                }
            }
        }
    }
}

/// A known match at `i` with no match before it is the first match.
pub proof fn lemma_find_mapping_at(s: Seq<UserIdMapping>, hash: Seq<char>, i: int)
    requires
        0 <= i < s.len(),
        s[i].user_hash@ == hash,
        forall|j: int| 0 <= j < i ==> (#[trigger] s[j]).user_hash@ != hash,
    ensures
        find_mapping(s, hash) == i,
    decreases i,
{
    if i > 0 {
        let d = s.drop_first();
        assert forall|j: int| 0 <= j < i - 1 implies (#[trigger] d[j]).user_hash@ != hash by {
            assert(d[j] == s[j + 1]);
        }
        assert(d[i - 1] == s[i]);
        lemma_find_mapping_at(d, hash, i - 1);
    }
}

/// Index of the limit row for a user hash, or -1.
pub open spec fn find_limit(s: Seq<UserLimit>, hash: Seq<char>) -> int
    decreases s.len(),
{
    if s.len() == 0 {
        -1
    } else if s[0].user_hash@ == hash {
        0
    } else {
        let r = find_limit(s.drop_first(), hash);
        if r < 0 {
            -1
        } else {
            r + 1
        }
    }
}

pub proof fn lemma_find_limit(s: Seq<UserLimit>, hash: Seq<char>)
    ensures
        find_limit(s, hash) >= 0 ==> {
            &&& find_limit(s, hash) < s.len()
            &&& s[find_limit(s, hash)].user_hash@ == hash
            &&& forall|j: int| 0 <= j < find_limit(s, hash) ==> (#[trigger] s[j]).user_hash@ != hash
        },
        find_limit(s, hash) < 0 ==> forall|j: int|
            0 <= j < s.len() ==> (#[trigger] s[j]).user_hash@ != hash,
    decreases s.len(),
{
    if s.len() > 0 && s[0].user_hash@ != hash {
        let d = s.drop_first();
        lemma_find_limit(d, hash);
        if find_limit(d, hash) >= 0 {
            assert(s[find_limit(s, hash)] == d[find_limit(d, hash)]);
            assert forall|j: int| 0 <= j < find_limit(s, hash) implies (#[trigger] s[j]).user_hash@
                != hash by {
                if j > 0 {
                    assert(d[j - 1] == s[j]);
                }
            }
        } else {
            assert forall|j: int| 0 <= j < s.len() implies (#[trigger] s[j]).user_hash@ != hash by {
                if j > 0 {
                    assert(d[j - 1] == s[j]);
                }
            }
        }
    }
}

pub proof fn lemma_find_limit_at(s: Seq<UserLimit>, hash: Seq<char>, i: int)
    requires
        0 <= i < s.len(),
        s[i].user_hash@ == hash,
        forall|j: int| 0 <= j < i ==> (#[trigger] s[j]).user_hash@ != hash,
    ensures
        find_limit(s, hash) == i,
    decreases i,
{
    if i > 0 {
        let d = s.drop_first();
        assert forall|j: int| 0 <= j < i - 1 implies (#[trigger] d[j]).user_hash@ != hash by {
            assert(d[j] == s[j + 1]);
        }
        assert(d[i - 1] == s[i]);
        lemma_find_limit_at(d, hash, i - 1);
    }
}

/// Two limit tables whose rows match a hash at the same positions have
/// the same first-match index for it.
pub proof fn lemma_find_limit_frame(s1: Seq<UserLimit>, s2: Seq<UserLimit>, hash: Seq<char>)
    requires
        s1.len() == s2.len(),
        forall|k: int|
            0 <= k < s1.len() ==> (((#[trigger] s1[k]).user_hash@ == hash) <==> ((
            #[trigger] s2[k]).user_hash@ == hash)),
    ensures
        find_limit(s1, hash) == find_limit(s2, hash),
    decreases s1.len(),
{
    if s1.len() > 0 {
        let d1 = s1.drop_first();
        let d2 = s2.drop_first();
        assert forall|k: int|
            0 <= k < d1.len() implies (((#[trigger] d1[k]).user_hash@ == hash) <==> ((
        #[trigger] d2[k]).user_hash@ == hash)) by {
            assert(d1[k] == s1[k + 1]);
            assert(d2[k] == s2[k + 1]);
        }
        lemma_find_limit_frame(d1, d2, hash);
        assert((s1[0].user_hash@ == hash) <==> (s2[0].user_hash@ == hash));
    }
}

/// Whether a row tracks the given measurement for the given agent.
pub open spec fn row_matches(
    t: MeasurementTracking,
    mid: u128,
    hash: Seq<char>,
    agent: Seq<char>,
) -> bool {
    t.measurement_id == mid && t.user_hash@ == hash && t.agent_id@ == agent
}

/// Index of the row for (measurement, user, agent), or -1.
pub open spec fn find_row(
    s: Seq<MeasurementTracking>,
    mid: u128,
    hash: Seq<char>,
    agent: Seq<char>,
) -> int
    decreases s.len(),
{
    if s.len() == 0 {
        -1
    } else if row_matches(s[0], mid, hash, agent) {
        0
    } else {
        let r = find_row(s.drop_first(), mid, hash, agent);
        if r < 0 {
            -1
        } else {
            r + 1
        }
    }
}

pub proof fn lemma_find_row(s: Seq<MeasurementTracking>, mid: u128, hash: Seq<char>, agent: Seq<char>)
    ensures
        find_row(s, mid, hash, agent) >= 0 ==> {
            &&& find_row(s, mid, hash, agent) < s.len()
            &&& row_matches(s[find_row(s, mid, hash, agent)], mid, hash, agent)
            &&& forall|j: int|
                0 <= j < find_row(s, mid, hash, agent) ==> !row_matches(
                    #[trigger] s[j],
                    mid,
                    hash,
                    agent,
                )
        },
        find_row(s, mid, hash, agent) < 0 ==> forall|j: int|
            0 <= j < s.len() ==> !row_matches(#[trigger] s[j], mid, hash, agent),
    decreases s.len(),
{
    if s.len() > 0 && !row_matches(s[0], mid, hash, agent) {
        let d = s.drop_first();
        lemma_find_row(d, mid, hash, agent);
        if find_row(d, mid, hash, agent) >= 0 {
            assert(s[find_row(s, mid, hash, agent)] == d[find_row(d, mid, hash, agent)]);
            assert forall|j: int| 0 <= j < find_row(s, mid, hash, agent) implies !row_matches(
                #[trigger] s[j],
                mid,
                hash,
                agent,
            ) by {
                if j > 0 {
                    assert(d[j - 1] == s[j]);
                }
            }
        } else {
            assert forall|j: int| 0 <= j < s.len() implies !row_matches(
                #[trigger] s[j],
                mid,
                hash,
                agent,
            ) by {
                if j > 0 {
                    assert(d[j - 1] == s[j]);
                }
            }
        }
    }
}

pub proof fn lemma_find_row_at(
    s: Seq<MeasurementTracking>,
    mid: u128,
    hash: Seq<char>,
    agent: Seq<char>,
    i: int,
)
    requires
        0 <= i < s.len(),
        row_matches(s[i], mid, hash, agent),
        forall|j: int| 0 <= j < i ==> !row_matches(#[trigger] s[j], mid, hash, agent),
    ensures
        find_row(s, mid, hash, agent) == i,
    decreases i,
{
    if i > 0 {
        let d = s.drop_first();
        assert forall|j: int| 0 <= j < i - 1 implies !row_matches(
            #[trigger] d[j],
            mid,
            hash,
            agent,
        ) by {
            assert(d[j] == s[j + 1]);
        }
        assert(d[i - 1] == s[i]);
        lemma_find_row_at(d, mid, hash, agent, i - 1);
    }
}

/// Index of the row for (measurement, agent) regardless of user, or -1.
pub open spec fn find_row_agent(s: Seq<MeasurementTracking>, mid: u128, agent: Seq<char>) -> int
    decreases s.len(),
{
    if s.len() == 0 {
        -1
    } else if s[0].measurement_id == mid && s[0].agent_id@ == agent {
        0
    } else {
        let r = find_row_agent(s.drop_first(), mid, agent);
        if r < 0 {
            -1
        } else {
            r + 1
        }
    }
}

pub proof fn lemma_find_row_agent(s: Seq<MeasurementTracking>, mid: u128, agent: Seq<char>)
    ensures
        find_row_agent(s, mid, agent) >= 0 ==> {
            &&& find_row_agent(s, mid, agent) < s.len()
            &&& s[find_row_agent(s, mid, agent)].measurement_id == mid
            &&& s[find_row_agent(s, mid, agent)].agent_id@ == agent
            &&& forall|j: int|
                0 <= j < find_row_agent(s, mid, agent) ==> !((#[trigger] s[j]).measurement_id == mid
                    && s[j].agent_id@ == agent)
        },
        find_row_agent(s, mid, agent) < 0 ==> forall|j: int|
            0 <= j < s.len() ==> !((#[trigger] s[j]).measurement_id == mid && s[j].agent_id@
                == agent),
    decreases s.len(),
{
    if s.len() > 0 && !(s[0].measurement_id == mid && s[0].agent_id@ == agent) {
        let d = s.drop_first();
        lemma_find_row_agent(d, mid, agent);
        if find_row_agent(d, mid, agent) >= 0 {
            assert(s[find_row_agent(s, mid, agent)] == d[find_row_agent(d, mid, agent)]);
            assert forall|j: int| 0 <= j < find_row_agent(s, mid, agent) implies !((
            #[trigger] s[j]).measurement_id == mid && s[j].agent_id@ == agent) by {
                if j > 0 {
                    assert(d[j - 1] == s[j]);
                }
            }
        } else {
            assert forall|j: int| 0 <= j < s.len() implies !((#[trigger] s[j]).measurement_id == mid
                && s[j].agent_id@ == agent) by {
                if j > 0 {
                    assert(d[j - 1] == s[j]);
                }
            }
        }
    }
}

/// The in-memory repository.
#[derive(Debug)]
pub struct Database {
    pub records: Vec<ProbeUsageRecord>,
    pub user_limits: Vec<UserLimit>,
    pub user_id_mappings: Vec<UserIdMapping>,
    pub measurement_tracking: Vec<MeasurementTracking>,
    pub next_row_id: u128,
}

impl Database {
    /// Uniqueness and sign invariants: user hashes appear once per table,
    /// tags are never shared, no two rows track the same (measurement,
    /// agent) pair, and counters are nonnegative.
    pub open spec fn wf(self) -> bool {
        &&& forall|i: int, j: int|
            0 <= i < j < self.user_id_mappings@.len() ==> (
            #[trigger] self.user_id_mappings@[i]).user_hash@ != (
            #[trigger] self.user_id_mappings@[j]).user_hash@
        &&& forall|i: int, j: int|
            0 <= i < j < self.user_id_mappings@.len() ==> (
            #[trigger] self.user_id_mappings@[i]).user_tag != (
            #[trigger] self.user_id_mappings@[j]).user_tag
        &&& forall|i: int, j: int|
            0 <= i < j < self.user_limits@.len() ==> (#[trigger] self.user_limits@[i]).user_hash@
                != (#[trigger] self.user_limits@[j]).user_hash@
        &&& forall|i: int, j: int|
            0 <= i < j < self.measurement_tracking@.len() ==> !((
            #[trigger] self.measurement_tracking@[i]).measurement_id == (
            #[trigger] self.measurement_tracking@[j]).measurement_id
                && self.measurement_tracking@[i].agent_id@
                == self.measurement_tracking@[j].agent_id@)
        &&& forall|i: int|
            0 <= i < self.measurement_tracking@.len() ==> (
            #[trigger] self.measurement_tracking@[i]).expected_probes >= 0
                && self.measurement_tracking@[i].sent_probes >= 0
        &&& self.measurement_tracking@.len() <= MAX_TRACKING_ROWS
    }

    /// The tag assigned to a user hash, if one is.
    pub open spec fn spec_tag_of(self, hash: Seq<char>) -> Option<u32> {
        if find_mapping(self.user_id_mappings@, hash) >= 0 {
            Some(self.user_id_mappings@[find_mapping(self.user_id_mappings@, hash)].user_tag)
        } else {
            None
        }
    }

    /// Whether some user holds the given tag.
    pub open spec fn spec_tag_taken(self, tag: u32) -> bool {
        exists|i: int|
            0 <= i < self.user_id_mappings@.len() && (
            #[trigger] self.user_id_mappings@[i]).user_tag == tag
    }

    /// The configured limit row for a user hash.
    pub open spec fn spec_limit_row(self, hash: Seq<char>) -> Option<UserLimit> {
        if find_limit(self.user_limits@, hash) >= 0 {
            Some(self.user_limits@[find_limit(self.user_limits@, hash)])
        } else {
            None
        }
    }

    /// The limit that applies to a user hash.
    pub open spec fn spec_limit_of(self, hash: Seq<char>) -> u32 {
        match self.spec_limit_row(hash) {
            Some(l) => l.probe_limit,
            None => DEFAULT_PROBE_LIMIT,
        }
    }

    /// A mock-style store with nothing in it.
    pub fn new_mock() -> (r: Database)
        ensures
            r.wf(),
            r.records@.len() == 0,
            r.user_limits@.len() == 0,
            r.user_id_mappings@.len() == 0,
            r.measurement_tracking@.len() == 0,
    {
        Database {
            records: Vec::new(),
            user_limits: Vec::new(),
            user_id_mappings: Vec::new(),
            measurement_tracking: Vec::new(),
            next_row_id: 1,
        }
    }

    /// Prepares the store; the in-memory form has nothing to do.
    pub fn initialize(&self) -> (r: Result<(), DbError>)
        ensures
            r is Ok,
    {
        Ok(())
    }

    /// Records a synthetic usage record for a submission; superseded by
    /// measurement tracking but kept for compatibility.
    pub fn record_probe_usage(
        &mut self,
        user_id: &str,
        measurement_id: u128,
        probe_count: i32,
        now: i64,
    ) -> (r: Result<ProbeUsageRecord, DbError>)
        requires
            old(self).wf(),
        ensures
            final(self).wf(),
            r matches Ok(rec) && rec.user_hash@ == spec_user_hash(user_id.spec_bytes())
                && rec.id == measurement_id && rec.probe_count == probe_count && rec.timestamp
                == now,
            final(self).records@.len() == old(self).records@.len() + 1,
            final(self).user_limits == old(self).user_limits,
            final(self).user_id_mappings == old(self).user_id_mappings,
            final(self).measurement_tracking == old(self).measurement_tracking,
    {
        let user_hash = hash_user_identifier(user_id);
        let rec = ProbeUsageRecord {
            id: measurement_id,
            user_hash: user_hash.clone(),
            probe_count,
            timestamp: now,
        };
        self.records.push(
            ProbeUsageRecord { id: measurement_id, user_hash, probe_count, timestamp: now },
        );
        Ok(rec)
    }

    fn find_limit_idx(&self, hash: &String) -> (r: Option<usize>)
        ensures
            match r {
                Some(i) => find_limit(self.user_limits@, hash@) == i && i < self.user_limits@.len(),
                None => find_limit(self.user_limits@, hash@) < 0,
            },
    {
        proof {
            lemma_find_limit(self.user_limits@, hash@);
        }
        let mut i: usize = 0;
        while i < self.user_limits.len()
            invariant
                i <= self.user_limits@.len(),
                forall|j: int| 0 <= j < i ==> (#[trigger] self.user_limits@[j]).user_hash@ != hash@,
            decreases self.user_limits@.len() - i,
        {
            if str_eq(self.user_limits[i].user_hash.as_str(), hash.as_str()) {
                proof {
                    lemma_find_limit_at(self.user_limits@, hash@, i as int);
                }
                return Some(i);
            }
            i += 1;
        }
        proof {
            lemma_find_limit(self.user_limits@, hash@);
            if find_limit(self.user_limits@, hash@) >= 0 {
                assert(self.user_limits@[find_limit(self.user_limits@, hash@)].user_hash@ == hash@);
            }
        }
        None
    }

    /// Sets a user's probe limit; re-setting keeps `created_at` and the
    /// row's identity, and touches no other user's limit.
    pub fn set_user_limit(&mut self, user_id: &str, probe_limit: u32, now: i64) -> (r: Result<
        UserLimit,
        DbError,
    >)
        requires
            old(self).wf(),
        ensures
            final(self).wf(),
            ({
                let hash = spec_user_hash(user_id.spec_bytes());
                match r {
                    Ok(row) => {
                        &&& row.user_hash@ == hash
                        &&& row.probe_limit == probe_limit
                        &&& row.updated_at == now
                        &&& (final(self).spec_limit_row(hash) matches Some(cur) && cur.user_hash@
                            == hash && cur.probe_limit == probe_limit && cur.updated_at == now
                            && cur.created_at == row.created_at && cur.id == row.id)
                        &&& match old(self).spec_limit_row(hash) {
                            Some(prev) => row.created_at == prev.created_at && row.id == prev.id,
                            None => row.created_at == now,
                        }
                        &&& final(self).spec_limit_of(hash) == probe_limit
                        &&& (forall|h2: Seq<char>|
                            h2 != hash ==> #[trigger] final(self).spec_limit_row(h2) == old(
                                self,
                            ).spec_limit_row(h2))
                        &&& final(self).user_id_mappings == old(self).user_id_mappings
                        &&& final(self).measurement_tracking == old(self).measurement_tracking
                        &&& final(self).records == old(self).records
                    },
                    Err(_) => false,
                }
            }),
    {
        let hash = hash_user_identifier(user_id);
        let ghost hs = hash@;
        match self.find_limit_idx(&hash) {
            Some(i) => {
                proof {
                    lemma_find_limit(self.user_limits@, hs);
                }
                let lim = &mut self.user_limits;
                let row = &mut lim[i];
                row.probe_limit = probe_limit;
                row.updated_at = now;
                let out = UserLimit {
                    id: self.user_limits[i].id,
                    user_hash: self.user_limits[i].user_hash.clone(),
                    probe_limit,
                    created_at: self.user_limits[i].created_at,
                    updated_at: now,
                };
                proof {
                    assert forall|x: int, y: int|
                        0 <= x < y < self.user_limits@.len() implies (
                    #[trigger] self.user_limits@[x]).user_hash@ != (
                    #[trigger] self.user_limits@[y]).user_hash@ by {
                        assert(self.user_limits@[x].user_hash@ == old(
                            self,
                        ).user_limits@[x].user_hash@);
                        assert(self.user_limits@[y].user_hash@ == old(
                            self,
                        ).user_limits@[y].user_hash@);
                    }
                    lemma_find_limit_at(self.user_limits@, hs, i as int);
                    assert forall|h2: Seq<char>| h2 != hs implies #[trigger] self.spec_limit_row(h2)
                        == old(self).spec_limit_row(h2) by {
                        assert forall|k: int|
                            0 <= k < self.user_limits@.len() implies (((
                        #[trigger] self.user_limits@[k]).user_hash@ == h2) <==> (((old(
                            self,
                        ).user_limits@[k]).user_hash@ == h2))) by {
                            assert(self.user_limits@[k].user_hash@ == old(
                                self,
                            ).user_limits@[k].user_hash@);
                        }
                        lemma_find_limit_frame(self.user_limits@, old(self).user_limits@, h2);
                        lemma_find_limit(self.user_limits@, h2);
                        let f2 = find_limit(self.user_limits@, h2);
                        if f2 >= 0 {
                            assert(self.user_limits@[f2].user_hash@ == h2);
                            assert(f2 != i);
                            assert(self.user_limits@[f2] == old(self).user_limits@[f2]);
                        }
                    }
                }
                Ok(out)
            },
            None => {
                let id = self.next_row_id;
                self.next_row_id = if self.next_row_id == u128::MAX {
                    1
                } else {
                    self.next_row_id + 1
                };
                let row = UserLimit {
                    id,
                    user_hash: hash.clone(),
                    probe_limit,
                    created_at: now,
                    updated_at: now,
                };
                let out = UserLimit {
                    id,
                    user_hash: hash,
                    probe_limit,
                    created_at: now,
                    updated_at: now,
                };
                self.user_limits.push(row);
                proof {
                    lemma_find_limit(old(self).user_limits@, hs);
                    assert forall|x: int, y: int|
                        0 <= x < y < self.user_limits@.len() implies (
                    #[trigger] self.user_limits@[x]).user_hash@ != (
                    #[trigger] self.user_limits@[y]).user_hash@ by {
                        if y == self.user_limits@.len() - 1 {
                            assert(self.user_limits@[x] == old(self).user_limits@[x]);
                            assert(old(self).user_limits@[x].user_hash@ != hs);
                        } else {
                            assert(self.user_limits@[x] == old(self).user_limits@[x]);
                            assert(self.user_limits@[y] == old(self).user_limits@[y]);
                        }
                    }
                    assert forall|j: int| 0 <= j < self.user_limits@.len() - 1 implies (
                    #[trigger] self.user_limits@[j]).user_hash@ != hs by {
                        assert(self.user_limits@[j] == old(self).user_limits@[j]);
                    }
                    lemma_find_limit_at(self.user_limits@, hs, self.user_limits@.len() - 1);
                    assert forall|h2: Seq<char>| h2 != hs implies #[trigger] self.spec_limit_row(h2)
                        == old(self).spec_limit_row(h2) by {
                        lemma_find_limit(old(self).user_limits@, h2);
                        let f2 = find_limit(old(self).user_limits@, h2);
                        if f2 >= 0 {
                            assert(self.user_limits@[f2] == old(self).user_limits@[f2]);
                            assert forall|j: int| 0 <= j < f2 implies (
                            #[trigger] self.user_limits@[j]).user_hash@ != h2 by {
                                assert(self.user_limits@[j] == old(self).user_limits@[j]);
                            }
                            lemma_find_limit_at(self.user_limits@, h2, f2);
                        } else {
                            lemma_find_limit(self.user_limits@, h2);
                            let g = find_limit(self.user_limits@, h2);
                            if g >= 0 {
                                assert(self.user_limits@[g].user_hash@ == h2);
                                if g < old(self).user_limits@.len() {
                                    assert(self.user_limits@[g] == old(self).user_limits@[g]);
                                } else {
                                    assert(self.user_limits@[g].user_hash@ == hs);
                                }
                                assert(false);
                            }
                        }
                    }
                }
                Ok(out)
            },
        }
    }

    /// The configured limit row for a user, if one was ever set.
    pub fn get_user_limit(&self, user_id: &str) -> (r: Result<Option<UserLimit>, DbError>)
        ensures
            ({
                let hash = spec_user_hash(user_id.spec_bytes());
                match r {
                    Ok(Some(row)) => (self.spec_limit_row(hash) matches Some(x) && x.id == row.id
                        && x.user_hash@ == row.user_hash@ && x.probe_limit == row.probe_limit
                        && x.created_at == row.created_at && x.updated_at == row.updated_at),
                    Ok(None) => self.spec_limit_row(hash) is None,
                    Err(_) => false,
                }
            }),
    {
        let hash = hash_user_identifier(user_id);
        match self.find_limit_idx(&hash) {
            Some(i) => {
                let l = &self.user_limits[i];
                Ok(
                    Some(
                        UserLimit {
                            id: l.id,
                            user_hash: l.user_hash.clone(),
                            probe_limit: l.probe_limit,
                            created_at: l.created_at,
                            updated_at: l.updated_at,
                        },
                    ),
                )
            },
            None => Ok(None),
        }
    }

    fn find_mapping_idx(&self, user_hash: &str) -> (r: Option<usize>)
        ensures
            match r {
                Some(i) => find_mapping(self.user_id_mappings@, user_hash@) == i && i
                    < self.user_id_mappings@.len(),
                None => find_mapping(self.user_id_mappings@, user_hash@) < 0,
            },
    {
        let mut i: usize = 0;
        while i < self.user_id_mappings.len()
            invariant
                i <= self.user_id_mappings@.len(),
                forall|j: int|
                    0 <= j < i ==> (#[trigger] self.user_id_mappings@[j]).user_hash@ != user_hash@,
            decreases self.user_id_mappings@.len() - i,
        {
            if str_eq(self.user_id_mappings[i].user_hash.as_str(), user_hash) {
                proof {
                    lemma_find_mapping_at(self.user_id_mappings@, user_hash@, i as int);
                }
                return Some(i);
            }
            i += 1;
        }
        proof {
            lemma_find_mapping(self.user_id_mappings@, user_hash@);
            if find_mapping(self.user_id_mappings@, user_hash@) >= 0 {
                assert(self.user_id_mappings@[find_mapping(
                    self.user_id_mappings@,
                    user_hash@,
                )].user_hash@ == user_hash@);
            }
        }
        None
    }

    /// The tag assigned to a user hash, if one is.
    pub fn get_user_id_by_hash(&self, user_hash: &str) -> (r: Result<Option<u32>, DbError>)
        ensures
            r matches Ok(t) && t == self.spec_tag_of(user_hash@),
    {
        match self.find_mapping_idx(user_hash) {
            Some(i) => Ok(Some(self.user_id_mappings[i].user_tag)),
            None => Ok(None),
        }
    }

    /// Whether any user already holds the tag.
    fn tag_taken(&self, user_id: u32) -> (r: bool)
        ensures
            r == self.spec_tag_taken(user_id),
    {
        let mut i: usize = 0;
        while i < self.user_id_mappings.len()
            invariant
                i <= self.user_id_mappings@.len(),
                forall|j: int| 0 <= j < i ==> (#[trigger] self.user_id_mappings@[j]).user_tag
                    != user_id,
            decreases self.user_id_mappings@.len() - i,
        {
            if self.user_id_mappings[i].user_tag == user_id {
                proof {
                    assert(self.user_id_mappings@[i as int].user_tag == user_id);
                }
                return true;
            }
            i += 1;
        }
        false
    }

    /// Claims a tag for a user hash. Fails without changing anything when
    /// the hash already has a tag or the tag already has a holder.
    pub fn create_user_id_mapping(&mut self, user_hash: &str, user_id: u32) -> (r: Result<
        (),
        DbError,
    >)
        requires
            old(self).wf(),
        ensures
            final(self).wf(),
            match r {
                Ok(_) => {
                    &&& old(self).spec_tag_of(user_hash@) is None
                    &&& !old(self).spec_tag_taken(user_id)
                    &&& final(self).user_id_mappings@.len() == old(self).user_id_mappings@.len()
                        + 1
                    &&& final(self).user_id_mappings@.drop_last() == old(self).user_id_mappings@
                    &&& final(self).user_id_mappings@.last().user_hash@ == user_hash@
                    &&& final(self).user_id_mappings@.last().user_tag == user_id
                    &&& final(self).spec_tag_of(user_hash@) == Some(user_id)
                    &&& final(self).user_limits == old(self).user_limits
                    &&& final(self).measurement_tracking == old(self).measurement_tracking
                    &&& final(self).records == old(self).records
                },
                Err(e) => {
                    &&& (e is UniqueUserHash || e is UniqueUserTag)
                    &&& (e is UniqueUserHash ==> old(self).spec_tag_of(user_hash@) is Some)
                    &&& (e is UniqueUserTag ==> old(self).spec_tag_of(user_hash@) is None && old(
                        self,
                    ).spec_tag_taken(user_id))
                    &&& *final(self) == *old(self)
                },
            },
    {
        let ghost hs = user_hash@;
        match self.find_mapping_idx(user_hash) {
            Some(_) => {
                return Err(DbError::UniqueUserHash);
            },
            None => {},
        }
        if self.tag_taken(user_id) {
            return Err(DbError::UniqueUserTag);
        }
        let entry = UserIdMapping { user_hash: user_hash.to_owned(), user_tag: user_id };
        self.user_id_mappings.push(entry);
        proof {
            lemma_find_mapping(old(self).user_id_mappings@, hs);
            assert(self.user_id_mappings@.drop_last() =~= old(self).user_id_mappings@);
            assert forall|x: int, y: int|
                0 <= x < y < self.user_id_mappings@.len() implies (
            #[trigger] self.user_id_mappings@[x]).user_hash@ != (
            #[trigger] self.user_id_mappings@[y]).user_hash@ by {
                if y == self.user_id_mappings@.len() - 1 {
                    assert(self.user_id_mappings@[x] == old(self).user_id_mappings@[x]);
                    assert(old(self).user_id_mappings@[x].user_hash@ != hs);
                } else {
                    assert(self.user_id_mappings@[x] == old(self).user_id_mappings@[x]);
                    assert(self.user_id_mappings@[y] == old(self).user_id_mappings@[y]);
                }
            }
            assert forall|x: int, y: int|
                0 <= x < y < self.user_id_mappings@.len() implies (
            #[trigger] self.user_id_mappings@[x]).user_tag != (
            #[trigger] self.user_id_mappings@[y]).user_tag by {
                if y == self.user_id_mappings@.len() - 1 {
                    assert(self.user_id_mappings@[x] == old(self).user_id_mappings@[x]);
                    assert(old(self).user_id_mappings@[x].user_tag != user_id);
                } else {
                    assert(self.user_id_mappings@[x] == old(self).user_id_mappings@[x]);
                    assert(self.user_id_mappings@[y] == old(self).user_id_mappings@[y]);
                }
            }
            assert forall|j: int| 0 <= j < self.user_id_mappings@.len() - 1 implies (
            #[trigger] self.user_id_mappings@[j]).user_hash@ != hs by {
                assert(self.user_id_mappings@[j] == old(self).user_id_mappings@[j]);
            }
            lemma_find_mapping_at(self.user_id_mappings@, hs, self.user_id_mappings@.len() - 1);
        }
        Ok(())
    }
}

// ---------------------------------------------------------------------------
// Derived views: usage and measurement aggregates
// ---------------------------------------------------------------------------
/// Whether a tracking row belongs to the user and was created within the
/// window.
pub open spec fn in_window(t: MeasurementTracking, hash: Seq<char>, start: int, end: int) -> bool {
    t.user_hash@ == hash && start <= t.created_at <= end
}

/// The rows usage is accounted from.
pub open spec fn usage_rows(
    rows: Seq<MeasurementTracking>,
    hash: Seq<char>,
    start: int,
    end: int,
) -> Seq<MeasurementTracking> {
    rows.filter(|t: MeasurementTracking| in_window(t, hash, start, end))
}

/// The rows of one measurement for one user.
pub open spec fn rows_for(
    rows: Seq<MeasurementTracking>,
    mid: u128,
    hash: Seq<char>,
) -> Seq<MeasurementTracking> {
    rows.filter(|t: MeasurementTracking| t.measurement_id == mid && t.user_hash@ == hash)
}

pub open spec fn sum_expected(rows: Seq<MeasurementTracking>) -> int
    decreases rows.len(),
{
    if rows.len() == 0 {
        0
    } else {
        sum_expected(rows.drop_last()) + rows.last().expected_probes
    }
}

pub open spec fn sum_sent(rows: Seq<MeasurementTracking>) -> int
    decreases rows.len(),
{
    if rows.len() == 0 {
        0
    } else {
        sum_sent(rows.drop_last()) + rows.last().sent_probes
    }
}

pub open spec fn count_complete(rows: Seq<MeasurementTracking>) -> int
    decreases rows.len(),
{
    if rows.len() == 0 {
        0
    } else {
        count_complete(rows.drop_last()) + if rows.last().is_complete {
            1int
        } else {
            0int
        }
    }
}

/// Whether any row carries the measurement id.
pub open spec fn mid_present(rows: Seq<MeasurementTracking>, mid: u128) -> bool {
    exists|j: int| 0 <= j < rows.len() && (#[trigger] rows[j]).measurement_id == mid
}

/// How many distinct measurement ids the rows carry.
pub open spec fn count_distinct(rows: Seq<MeasurementTracking>) -> int
    decreases rows.len(),
{
    if rows.len() == 0 {
        0
    } else {
        count_distinct(rows.drop_last()) + if mid_present(
            rows.drop_last(),
            rows.last().measurement_id,
        ) {
            0int
        } else {
            1int
        }
    }
}

/// The latest update stamp among the rows.
pub open spec fn max_updated(rows: Seq<MeasurementTracking>) -> Option<i64>
    decreases rows.len(),
{
    if rows.len() == 0 {
        None
    } else {
        match max_updated(rows.drop_last()) {
            None => Some(rows.last().updated_at),
            Some(m) => if rows.last().updated_at >= m {
                Some(rows.last().updated_at)
            } else {
                Some(m)
            },
        }
    }
}

/// The earliest creation stamp among the rows.
pub open spec fn min_created(rows: Seq<MeasurementTracking>) -> Option<i64>
    decreases rows.len(),
{
    if rows.len() == 0 {
        None
    } else {
        match min_created(rows.drop_last()) {
            None => Some(rows.last().created_at),
            Some(m) => if rows.last().created_at <= m {
                Some(rows.last().created_at)
            } else {
                Some(m)
            },
        }
    }
}

/// Whether the rows stand in ascending creation order.
pub open spec fn sorted_by_created(s: Seq<MeasurementTracking>) -> bool {
    forall|x: int, y: int|
        0 <= x < y < s.len() ==> (#[trigger] s[x]).created_at <= (#[trigger] s[y]).created_at
}

/// Inserts a row after every row created at or before it, so ascending
/// creation order and the relative order of equal stamps are kept.
pub open spec fn insert_by_created(
    s: Seq<MeasurementTracking>,
    row: MeasurementTracking,
) -> Seq<MeasurementTracking>
    decreases s.len(),
{
    if s.len() == 0 {
        seq![row]
    } else if s.last().created_at <= row.created_at {
        s.push(row)
    } else {
        insert_by_created(s.drop_last(), row).push(s.last())
    }
}

/// The rows rearranged into ascending creation order: a stable insertion
/// sort, so rows with equal stamps keep their relative order.
pub open spec fn sort_by_created(s: Seq<MeasurementTracking>) -> Seq<MeasurementTracking>
    decreases s.len(),
{
    if s.len() == 0 {
        Seq::empty()
    } else {
        insert_by_created(sort_by_created(s.drop_last()), s.last())
    }
}

/// Inserting a row adds exactly its own contribution to every aggregate,
/// hands back only the row and the rows it was given, and keeps ascending
/// creation order.
#[verifier::rlimit(60)]
pub proof fn lemma_insert_by_created(s: Seq<MeasurementTracking>, row: MeasurementTracking)
    ensures
        insert_by_created(s, row).len() == s.len() + 1,
        sum_expected(insert_by_created(s, row)) == sum_expected(s) + row.expected_probes,
        sum_sent(insert_by_created(s, row)) == sum_sent(s) + row.sent_probes,
        count_complete(insert_by_created(s, row)) == count_complete(s) + (if row.is_complete {
            1int
        } else {
            0int
        }),
        min_created(insert_by_created(s, row)) == (match min_created(s) {
            None => Some(row.created_at),
            Some(m) => if row.created_at <= m {
                Some(row.created_at)
            } else {
                Some(m)
            },
        }),
        max_updated(insert_by_created(s, row)) == (match max_updated(s) {
            None => Some(row.updated_at),
            Some(m) => if row.updated_at >= m {
                Some(row.updated_at)
            } else {
                Some(m)
            },
        }),
        forall|k: int|
            0 <= k < insert_by_created(s, row).len() ==> ((#[trigger] insert_by_created(s, row)[k])
                == row || exists|j: int| 0 <= j < s.len() && insert_by_created(s, row)[k] == s[j]),
        sorted_by_created(s) ==> sorted_by_created(insert_by_created(s, row)),
    decreases s.len(),
{
    let t = insert_by_created(s, row);
    if s.len() == 0 {
        assert(t == seq![row]);
        assert(t.drop_last() =~= Seq::<MeasurementTracking>::empty());
        assert(t.last() == row);
        assert(t[0] == row);
        assert(sum_expected(t) == sum_expected(t.drop_last()) + t.last().expected_probes);
        assert(sum_sent(t) == sum_sent(t.drop_last()) + t.last().sent_probes);
        assert(count_complete(t) == count_complete(t.drop_last()) + (if t.last().is_complete {
            1int
        } else {
            0int
        }));
        assert(min_created(Seq::<MeasurementTracking>::empty()) is None);
        assert(max_updated(Seq::<MeasurementTracking>::empty()) is None);
        assert(min_created(t) == Some(row.created_at));
        assert(max_updated(t) == Some(row.updated_at));
    } else if s.last().created_at <= row.created_at {
        assert(t == s.push(row));
        assert(t.drop_last() =~= s);
        assert(t.last() == row);
        assert(sum_expected(t) == sum_expected(t.drop_last()) + t.last().expected_probes);
        assert(sum_sent(t) == sum_sent(t.drop_last()) + t.last().sent_probes);
        assert(count_complete(t) == count_complete(t.drop_last()) + (if t.last().is_complete {
            1int
        } else {
            0int
        }));
        assert(min_created(t) == (match min_created(s) {
            None => Some(row.created_at),
            Some(m) => if row.created_at <= m {
                Some(row.created_at)
            } else {
                Some(m)
            },
        }));
        assert(max_updated(t) == (match max_updated(s) {
            None => Some(row.updated_at),
            Some(m) => if row.updated_at >= m {
                Some(row.updated_at)
            } else {
                Some(m)
            },
        }));
        assert forall|k: int|
            0 <= k < t.len() implies ((#[trigger] t[k]) == row || exists|j: int|
            0 <= j < s.len() && t[k] == s[j]) by {
            if k < s.len() {
                assert(t[k] == s[k]);
            }
        }
        if sorted_by_created(s) {
            assert forall|x: int, y: int|
                0 <= x < y < t.len() implies (#[trigger] t[x]).created_at <= (
            #[trigger] t[y]).created_at by {
                if y == t.len() - 1 {
                    assert(t[x] == s[x]);
                    if x < s.len() - 1 {
                        assert(s[x].created_at <= s[s.len() - 1].created_at);
                    }
                    assert(s.last() == s[s.len() - 1]);
                } else {
                    assert(t[x] == s[x] && t[y] == s[y]);
                }
            }
        }
    } else {
        let d = s.drop_last();
        lemma_insert_by_created(d, row);
        let td = insert_by_created(d, row);
        assert(t == td.push(s.last()));
        assert(t.drop_last() =~= td);
        assert(t.last() == s.last());
        assert(sum_expected(s) == sum_expected(d) + s.last().expected_probes);
        assert(sum_sent(s) == sum_sent(d) + s.last().sent_probes);
        assert(sum_expected(t) == sum_expected(t.drop_last()) + t.last().expected_probes);
        assert(sum_sent(t) == sum_sent(t.drop_last()) + t.last().sent_probes);
        assert(count_complete(s) == count_complete(d) + (if s.last().is_complete {
            1int
        } else {
            0int
        }));
        assert(count_complete(t) == count_complete(t.drop_last()) + (if t.last().is_complete {
            1int
        } else {
            0int
        }));
        assert(min_created(t) == (match min_created(td) {
            None => Some(s.last().created_at),
            Some(m) => if s.last().created_at <= m {
                Some(s.last().created_at)
            } else {
                Some(m)
            },
        }));
        assert(max_updated(t) == (match max_updated(td) {
            None => Some(s.last().updated_at),
            Some(m) => if s.last().updated_at >= m {
                Some(s.last().updated_at)
            } else {
                Some(m)
            },
        }));
        assert(min_created(s) == (match min_created(d) {
            None => Some(s.last().created_at),
            Some(m) => if s.last().created_at <= m {
                Some(s.last().created_at)
            } else {
                Some(m)
            },
        }));
        assert(max_updated(s) == (match max_updated(d) {
            None => Some(s.last().updated_at),
            Some(m) => if s.last().updated_at >= m {
                Some(s.last().updated_at)
            } else {
                Some(m)
            },
        }));
        assert forall|k: int|
            0 <= k < t.len() implies ((#[trigger] t[k]) == row || exists|j: int|
            0 <= j < s.len() && t[k] == s[j]) by {
            if k < td.len() {
                assert(t[k] == td[k]);
                if td[k] != row {
                    let j = choose|j: int| 0 <= j < d.len() && td[k] == d[j];
                    assert(s[j] == d[j]);
                }
            } else {
                assert(t[k] == s[s.len() - 1]);
            }
        }
        if sorted_by_created(s) {
            assert forall|x: int, y: int|
                0 <= x < y < d.len() implies (#[trigger] d[x]).created_at <= (
            #[trigger] d[y]).created_at by {
                assert(d[x] == s[x] && d[y] == s[y]);
            }
            assert forall|x: int, y: int|
                0 <= x < y < t.len() implies (#[trigger] t[x]).created_at <= (
            #[trigger] t[y]).created_at by {
                if y < td.len() {
                    assert(t[x] == td[x] && t[y] == td[y]);
                } else {
                    assert(t[x] == td[x]);
                    assert(t[y] == s.last());
                    if td[x] == row {
                        assert(row.created_at < s.last().created_at);
                    } else {
                        let j = choose|j: int| 0 <= j < d.len() && td[x] == d[j];
                        assert(s[j] == d[j]);
                        assert(s[j].created_at <= s[s.len() - 1].created_at);
                        assert(s.last() == s[s.len() - 1]);
                    }
                }
            }
        }
    }
}

/// Sorting by creation stamp permutes the rows: every aggregate the
/// status report sums is unchanged, the result is in ascending creation
/// order, and each of its rows is one of the rows sorted.
pub proof fn lemma_sort_by_created(s: Seq<MeasurementTracking>)
    ensures
        sort_by_created(s).len() == s.len(),
        sum_expected(sort_by_created(s)) == sum_expected(s),
        sum_sent(sort_by_created(s)) == sum_sent(s),
        count_complete(sort_by_created(s)) == count_complete(s),
        min_created(sort_by_created(s)) == min_created(s),
        max_updated(sort_by_created(s)) == max_updated(s),
        sorted_by_created(sort_by_created(s)),
        forall|k: int|
            0 <= k < sort_by_created(s).len() ==> exists|j: int|
                0 <= j < s.len() && (#[trigger] sort_by_created(s)[k]) == s[j],
    decreases s.len(),
{
    if s.len() > 0 {
        let d = s.drop_last();
        lemma_sort_by_created(d);
        lemma_insert_by_created(sort_by_created(d), s.last());
        let t = sort_by_created(s);
        assert(t == insert_by_created(sort_by_created(d), s.last()));
        assert forall|k: int|
            0 <= k < t.len() implies exists|j: int| 0 <= j < s.len() && (#[trigger] t[k])
            == s[j] by {
            if t[k] == s.last() {
                assert(t[k] == s[s.len() - 1]);
            } else {
                let j2 = choose|j2: int|
                    0 <= j2 < sort_by_created(d).len() && t[k] == sort_by_created(d)[j2];
                let j3 = choose|j3: int| 0 <= j3 < d.len() && sort_by_created(d)[j2] == d[j3];
                assert(s[j3] == d[j3]);
            }
        }
    }
}

/// Where a row's stamp splits the rows, insertion is the three-way split.
proof fn lemma_insert_by_created_at(s: Seq<MeasurementTracking>, row: MeasurementTracking, k: int)
    requires
        0 <= k <= s.len(),
        forall|j: int| 0 <= j < k ==> (#[trigger] s[j]).created_at <= row.created_at,
        forall|j: int| k <= j < s.len() ==> (#[trigger] s[j]).created_at > row.created_at,
    ensures
        insert_by_created(s, row) == s.take(k) + seq![row] + s.skip(k),
    decreases s.len(),
{
    if s.len() == 0 {
        assert(insert_by_created(s, row) =~= s.take(k) + seq![row] + s.skip(k));
    } else if k == s.len() {
        assert(s.last() == s[s.len() - 1]);
        assert(insert_by_created(s, row) == s.push(row));
        assert(s.push(row) =~= s.take(k) + seq![row] + s.skip(k));
    } else {
        let d = s.drop_last();
        assert(s.last() == s[s.len() - 1]);
        assert(s.last().created_at > row.created_at);
        assert forall|j: int| 0 <= j < k implies (#[trigger] d[j]).created_at
            <= row.created_at by {
            assert(d[j] == s[j]);
        }
        assert forall|j: int| k <= j < d.len() implies (#[trigger] d[j]).created_at
            > row.created_at by {
            assert(d[j] == s[j]);
        }
        lemma_insert_by_created_at(d, row, k);
        assert(insert_by_created(s, row) == insert_by_created(d, row).push(s.last()));
        assert((d.take(k) + seq![row] + d.skip(k)).push(s.last()) =~= s.take(k) + seq![row]
            + s.skip(k));
    }
}

/// Midnight of the UTC day `now` falls in.
pub open spec fn spec_today_start(now: int) -> int {
    now - now % 86400
}

/// A sum clamped into a `u32`.
pub open spec fn clamp_u32(v: int) -> u32 {
    if v < 0 {
        0
    } else if v > 0xffff_ffff {
        0xffff_ffffu32
    } else {
        v as u32
    }
}

pub proof fn lemma_sum_expected_bound(rows: Seq<MeasurementTracking>)
    requires
        forall|i: int| 0 <= i < rows.len() ==> (#[trigger] rows[i]).expected_probes >= 0,
        forall|i: int| 0 <= i < rows.len() ==> (#[trigger] rows[i]).sent_probes >= 0,
    ensures
        0 <= sum_expected(rows) <= rows.len() * 0x8000_0000,
        0 <= sum_sent(rows) <= rows.len() * 0x8000_0000,
    decreases rows.len(),
{
    if rows.len() > 0 {
        let d = rows.drop_last();
        assert forall|i: int| 0 <= i < d.len() implies (#[trigger] d[i]).expected_probes >= 0
            && d[i].sent_probes >= 0 by {
            assert(d[i] == rows[i]);
        }
        lemma_sum_expected_bound(d);
        assert(rows.last().expected_probes < 0x8000_0000);
    }
}

pub proof fn lemma_count_distinct_bound(rows: Seq<MeasurementTracking>)
    ensures
        0 <= count_distinct(rows) <= rows.len(),
    decreases rows.len(),
{
    if rows.len() > 0 {
        lemma_count_distinct_bound(rows.drop_last());
    }
}

pub proof fn lemma_count_complete_bound(rows: Seq<MeasurementTracking>)
    ensures
        0 <= count_complete(rows) <= rows.len(),
    decreases rows.len(),
{
    if rows.len() > 0 {
        lemma_count_complete_bound(rows.drop_last());
    }
}

/// A measurement is complete exactly when every one of its rows is.
pub proof fn lemma_measurement_completion(rows: Seq<MeasurementTracking>)
    ensures
        (count_complete(rows) == rows.len()) <==> (forall|j: int|
            0 <= j < rows.len() ==> (#[trigger] rows[j]).is_complete),
    decreases rows.len(),
{
    lemma_count_complete_bound(rows);
    if rows.len() > 0 {
        let d = rows.drop_last();
        lemma_measurement_completion(d);
        lemma_count_complete_bound(d);
        if count_complete(rows) == rows.len() {
            assert forall|j: int| 0 <= j < rows.len() implies (#[trigger] rows[j]).is_complete by {
                if j < rows.len() - 1 {
                    assert(d[j] == rows[j]);
                }
            }
        } else {
            if forall|j: int| 0 <= j < rows.len() ==> (#[trigger] rows[j]).is_complete {
                assert forall|j: int| 0 <= j < d.len() implies (#[trigger] d[j]).is_complete by {
                    assert(d[j] == rows[j]);
                }
            }
        }
    }
}

/// Recording a submission's rows raises the accounted usage by exactly the
/// expected probes of each row in the window: if a submission of `n` was
/// admitted against `total`, a following submission of `m` is admitted only
/// against `total + n`.
pub proof fn lemma_quota_monotonicity(
    before: Seq<MeasurementTracking>,
    after: Seq<MeasurementTracking>,
    row: MeasurementTracking,
    hash: Seq<char>,
    start: int,
    end: int,
)
    requires
        after == before.push(row),
        in_window(row, hash, start, end),
    ensures
        sum_expected(usage_rows(after, hash, start, end)) == sum_expected(
            usage_rows(before, hash, start, end),
        ) + row.expected_probes,
{
    reveal(Seq::filter);
    let pred = |t: MeasurementTracking| in_window(t, hash, start, end);
    assert(after.drop_last() =~= before);
    assert(after.last() == row);
    assert(usage_rows(after, hash, start, end) == usage_rows(before, hash, start, end).push(row));
    assert(usage_rows(after, hash, start, end).drop_last() =~= usage_rows(
        before,
        hash,
        start,
        end,
    ));
}

/// Tag stability: a well-formed store binds a user hash to at most one
/// tag, so every issuance call after the first hands back the tag the
/// first call committed, as the issuance contract states.
pub proof fn lemma_tag_stability(db: Database, hash: Seq<char>, t1: u32, t2: u32)
    requires
        db.wf(),
        db.spec_tag_of(hash) == Some(t1),
        db.spec_tag_of(hash) == Some(t2),
    ensures
        t1 == t2,
{
}

/// Distinct user hashes never share a tag: the issued mapping is a
/// bijection between hashes and tags.
pub proof fn lemma_tag_uniqueness(db: Database, h1: Seq<char>, h2: Seq<char>)
    requires
        db.wf(),
        db.spec_tag_of(h1) is Some,
        db.spec_tag_of(h1) == db.spec_tag_of(h2),
    ensures
        h1 == h2,
{
    lemma_find_mapping(db.user_id_mappings@, h1);
    lemma_find_mapping(db.user_id_mappings@, h2);
    let i1 = find_mapping(db.user_id_mappings@, h1);
    let i2 = find_mapping(db.user_id_mappings@, h2);
    if i1 != i2 {
        assert(db.user_id_mappings@[i1].user_tag != db.user_id_mappings@[i2].user_tag);
    }
}

impl Database {
    fn find_row_idx(&self, mid: u128, user_hash: &str, agent_id: &str) -> (r: Option<usize>)
        ensures
            match r {
                Some(i) => find_row(self.measurement_tracking@, mid, user_hash@, agent_id@) == i
                    && i < self.measurement_tracking@.len(),
                None => find_row(self.measurement_tracking@, mid, user_hash@, agent_id@) < 0,
            },
    {
        let mut i: usize = 0;
        while i < self.measurement_tracking.len()
            invariant
                i <= self.measurement_tracking@.len(),
                forall|j: int|
                    0 <= j < i ==> !row_matches(
                        #[trigger] self.measurement_tracking@[j],
                        mid,
                        user_hash@,
                        agent_id@,
                    ),
            decreases self.measurement_tracking@.len() - i,
        {
            let t = &self.measurement_tracking[i];
            if t.measurement_id == mid && str_eq(t.user_hash.as_str(), user_hash) && str_eq(
                t.agent_id.as_str(),
                agent_id,
            ) {
                proof {
                    lemma_find_row_at(
                        self.measurement_tracking@,
                        mid,
                        user_hash@,
                        agent_id@,
                        i as int,
                    );
                }
                return Some(i);
            }
            i += 1;
        }
        proof {
            lemma_find_row(self.measurement_tracking@, mid, user_hash@, agent_id@);
            if find_row(self.measurement_tracking@, mid, user_hash@, agent_id@) >= 0 {
                assert(row_matches(
                    self.measurement_tracking@[find_row(
                        self.measurement_tracking@,
                        mid,
                        user_hash@,
                        agent_id@,
                    )],
                    mid,
                    user_hash@,
                    agent_id@,
                ));
            }
        }
        None
    }

    fn find_row_agent_idx(&self, mid: u128, agent_id: &str) -> (r: Option<usize>)
        ensures
            match r {
                Some(i) => find_row_agent(self.measurement_tracking@, mid, agent_id@) == i && i
                    < self.measurement_tracking@.len(),
                None => find_row_agent(self.measurement_tracking@, mid, agent_id@) < 0,
            },
    {
        proof {
            lemma_find_row_agent(self.measurement_tracking@, mid, agent_id@);
        }
        let mut i: usize = 0;
        while i < self.measurement_tracking.len()
            invariant
                i <= self.measurement_tracking@.len(),
                forall|j: int|
                    0 <= j < i ==> !((#[trigger] self.measurement_tracking@[j]).measurement_id
                        == mid && self.measurement_tracking@[j].agent_id@ == agent_id@),
                find_row_agent(self.measurement_tracking@, mid, agent_id@) >= 0 ==> {
                    &&& find_row_agent(self.measurement_tracking@, mid, agent_id@)
                        < self.measurement_tracking@.len()
                    &&& self.measurement_tracking@[find_row_agent(
                        self.measurement_tracking@,
                        mid,
                        agent_id@,
                    )].measurement_id == mid
                    &&& self.measurement_tracking@[find_row_agent(
                        self.measurement_tracking@,
                        mid,
                        agent_id@,
                    )].agent_id@ == agent_id@
                    &&& forall|j: int|
                        0 <= j < find_row_agent(self.measurement_tracking@, mid, agent_id@)
                            ==> !((#[trigger] self.measurement_tracking@[j]).measurement_id == mid
                            && self.measurement_tracking@[j].agent_id@ == agent_id@)
                },
                find_row_agent(self.measurement_tracking@, mid, agent_id@) < 0 ==> forall|j: int|
                    0 <= j < self.measurement_tracking@.len() ==> !((
                    #[trigger] self.measurement_tracking@[j]).measurement_id == mid
                        && self.measurement_tracking@[j].agent_id@ == agent_id@),
            decreases self.measurement_tracking@.len() - i,
        {
            let t = &self.measurement_tracking[i];
            if t.measurement_id == mid && str_eq(t.agent_id.as_str(), agent_id) {
                return Some(i);
            }
            i += 1;
        }
        None
    }

    /// Opens a tracking row for one agent of a fresh measurement: nothing
    /// sent yet, not complete.
    pub fn create_measurement_tracking(
        &mut self,
        user_hash: &str,
        measurement_id: u128,
        agent_id: &str,
        expected_probes: i32,
        now: i64,
    ) -> (r: Result<MeasurementTracking, DbError>)
        requires
            old(self).wf(),
            expected_probes >= 0,
        ensures
            final(self).wf(),
            match r {
                Ok(row) => {
                    &&& find_row_agent(old(self).measurement_tracking@, measurement_id, agent_id@)
                        < 0
                    &&& row.user_hash@ == user_hash@
                    &&& row.measurement_id == measurement_id
                    &&& row.agent_id@ == agent_id@
                    &&& row.expected_probes == expected_probes
                    &&& row.sent_probes == 0
                    &&& !row.is_complete
                    &&& row.created_at == now
                    &&& row.updated_at == now
                    &&& final(self).measurement_tracking@.len() == old(
                        self,
                    ).measurement_tracking@.len() + 1
                    &&& final(self).measurement_tracking@.drop_last() == old(
                        self,
                    ).measurement_tracking@
                    &&& final(self).measurement_tracking@.last().user_hash@ == user_hash@
                    &&& final(self).measurement_tracking@.last().measurement_id == measurement_id
                    &&& final(self).measurement_tracking@.last().agent_id@ == agent_id@
                    &&& final(self).measurement_tracking@.last().expected_probes == expected_probes
                    &&& final(self).measurement_tracking@.last().sent_probes == 0
                    &&& !final(self).measurement_tracking@.last().is_complete
                    &&& final(self).measurement_tracking@.last().created_at == now
                    &&& final(self).measurement_tracking@.last().updated_at == now
                    &&& final(self).user_limits == old(self).user_limits
                    &&& final(self).user_id_mappings == old(self).user_id_mappings
                    &&& final(self).records == old(self).records
                },
                Err(e) => {
                    &&& (e is UniqueMeasurementAgent || e is StoreFull)
                    &&& (e is UniqueMeasurementAgent ==> find_row_agent(
                        old(self).measurement_tracking@,
                        measurement_id,
                        agent_id@,
                    ) >= 0)
                    &&& (e is StoreFull ==> old(self).measurement_tracking@.len()
                        == MAX_TRACKING_ROWS)
                    &&& *final(self) == *old(self)
                },
            },
    {
        match self.find_row_agent_idx(measurement_id, agent_id) {
            Some(_) => {
                return Err(DbError::UniqueMeasurementAgent);
            },
            None => {},
        }
        if self.measurement_tracking.len() >= MAX_TRACKING_ROWS {
            return Err(DbError::StoreFull);
        }
        let id = self.next_row_id;
        self.next_row_id = if self.next_row_id == u128::MAX {
            1
        } else {
            self.next_row_id + 1
        };
        let row = MeasurementTracking {
            id,
            user_hash: user_hash.to_owned(),
            measurement_id,
            agent_id: agent_id.to_owned(),
            expected_probes,
            sent_probes: 0,
            is_complete: false,
            created_at: now,
            updated_at: now,
        };
        let out = row.clone();
        self.measurement_tracking.push(row);
        proof {
            lemma_find_row_agent(old(self).measurement_tracking@, measurement_id, agent_id@);
            assert(self.measurement_tracking@.drop_last() =~= old(self).measurement_tracking@);
            assert forall|x: int, y: int|
                0 <= x < y < self.measurement_tracking@.len() implies !((
            #[trigger] self.measurement_tracking@[x]).measurement_id == (
            #[trigger] self.measurement_tracking@[y]).measurement_id
                && self.measurement_tracking@[x].agent_id@
                == self.measurement_tracking@[y].agent_id@) by {
                if y == self.measurement_tracking@.len() - 1 {
                    assert(self.measurement_tracking@[x] == old(self).measurement_tracking@[x]);
                    assert(!(old(self).measurement_tracking@[x].measurement_id == measurement_id
                        && old(self).measurement_tracking@[x].agent_id@ == agent_id@));
                } else {
                    assert(self.measurement_tracking@[x] == old(self).measurement_tracking@[x]);
                    assert(self.measurement_tracking@[y] == old(self).measurement_tracking@[y]);
                }
            }
        }
        Ok(out)
    }

    /// Overwrites an agent's progress on a measurement. The completion
    /// flag is monotone: a completed row never becomes incomplete again,
    /// though its sent count may still move.
    pub fn update_measurement_probe_count(
        &mut self,
        measurement_id: u128,
        user_hash: &str,
        agent_id: &str,
        sent_probes: i32,
        is_complete: bool,
        now: i64,
    ) -> (r: Result<MeasurementTracking, DbError>)
        requires
            old(self).wf(),
            sent_probes >= 0,
        ensures
            final(self).wf(),
            match r {
                Ok(row) => {
                    let i = find_row(
                        old(self).measurement_tracking@,
                        measurement_id,
                        user_hash@,
                        agent_id@,
                    );
                    &&& i >= 0
                    &&& row.sent_probes == sent_probes
                    &&& row.is_complete == (old(self).measurement_tracking@[i].is_complete
                        || is_complete)
                    &&& row.updated_at == now
                    &&& row.measurement_id == measurement_id
                    &&& row.user_hash@ == user_hash@
                    &&& row.agent_id@ == agent_id@
                    &&& row.expected_probes == old(self).measurement_tracking@[i].expected_probes
                    &&& row.created_at == old(self).measurement_tracking@[i].created_at
                    &&& row.id == old(self).measurement_tracking@[i].id
                    &&& final(self).measurement_tracking@ == old(
                        self,
                    ).measurement_tracking@.update(i, row)
                    &&& final(self).user_limits == old(self).user_limits
                    &&& final(self).user_id_mappings == old(self).user_id_mappings
                    &&& final(self).records == old(self).records
                },
                Err(e) => {
                    &&& e is RowNotFound
                    &&& find_row(
                        old(self).measurement_tracking@,
                        measurement_id,
                        user_hash@,
                        agent_id@,
                    ) < 0
                    &&& *final(self) == *old(self)
                },
            },
    {
        match self.find_row_idx(measurement_id, user_hash, agent_id) {
            Some(i) => {
                proof {
                    lemma_find_row(
                        self.measurement_tracking@,
                        measurement_id,
                        user_hash@,
                        agent_id@,
                    );
                }
                let rows = &mut self.measurement_tracking;
                let row = &mut rows[i];
                row.sent_probes = sent_probes;
                row.is_complete = row.is_complete || is_complete;
                row.updated_at = now;
                let out = self.measurement_tracking[i].clone();
                proof {
                    assert(self.measurement_tracking@ =~= old(self).measurement_tracking@.update(
                        i as int,
                        self.measurement_tracking@[i as int],
                    ));
                    assert forall|x: int, y: int|
                        0 <= x < y < self.measurement_tracking@.len() implies !((
                    #[trigger] self.measurement_tracking@[x]).measurement_id == (
                    #[trigger] self.measurement_tracking@[y]).measurement_id
                        && self.measurement_tracking@[x].agent_id@
                        == self.measurement_tracking@[y].agent_id@) by {
                        assert(self.measurement_tracking@[x].measurement_id == old(
                            self,
                        ).measurement_tracking@[x].measurement_id
                            && self.measurement_tracking@[x].agent_id@ == old(
                            self,
                        ).measurement_tracking@[x].agent_id@);
                        assert(self.measurement_tracking@[y].measurement_id == old(
                            self,
                        ).measurement_tracking@[y].measurement_id
                            && self.measurement_tracking@[y].agent_id@ == old(
                            self,
                        ).measurement_tracking@[y].agent_id@);
                    }
                }
                Ok(out)
            },
            None => Err(DbError::RowNotFound),
        }
    }

    /// The rows of one measurement for one user, sorted ascending by
    /// creation stamp; rows with equal stamps keep their insertion order.
    pub fn get_measurement_tracking(&self, measurement_id: u128, user_hash: &str) -> (r: Result<
        Vec<MeasurementTracking>,
        DbError,
    >)
        ensures
            r matches Ok(rows) && {
                &&& rows@ == sort_by_created(
                    rows_for(self.measurement_tracking@, measurement_id, user_hash@),
                )
                &&& sorted_by_created(rows@)
            },
    {
        let ghost all = self.measurement_tracking@;
        let ghost pred = |t: MeasurementTracking|
            t.measurement_id == measurement_id && t.user_hash@ == user_hash@;
        let mut out: Vec<MeasurementTracking> = Vec::new();
        let mut i: usize = 0;
        proof {
            reveal(Seq::filter);
            assert(all.take(0).filter(pred) =~= Seq::<MeasurementTracking>::empty());
            assert(out@ =~= sort_by_created(all.take(0).filter(pred)));
        }
        while i < self.measurement_tracking.len()
            invariant
                all == self.measurement_tracking@,
                pred == (|t: MeasurementTracking|
                    t.measurement_id == measurement_id && t.user_hash@ == user_hash@),
                i <= all.len(),
                out@ == sort_by_created(all.take(i as int).filter(pred)),
                sorted_by_created(out@),
            decreases all.len() - i,
        {
            let t = &self.measurement_tracking[i];
            proof {
                reveal(Seq::filter);
                assert(all.take(i + 1).drop_last() =~= all.take(i as int));
                assert(all.take(i + 1).last() == all[i as int]);
            }
            if t.measurement_id == measurement_id && str_eq(t.user_hash.as_str(), user_hash) {
                let ghost fprev = all.take(i as int).filter(pred);
                let ghost prev = out@;
                // the slot after every row created at or before this one
                let mut k: usize = out.len();
                while k > 0 && out[k - 1].created_at > t.created_at
                    invariant
                        k <= out@.len(),
                        out@ == prev,
                        t == self.measurement_tracking@[i as int],
                        i < all.len(),
                        all == self.measurement_tracking@,
                        forall|j: int|
                            k <= j < out@.len() ==> (#[trigger] out@[j]).created_at > all[i as int].created_at,
                    decreases k,
                {
                    k -= 1;
                }
                let row = t.clone();
                out.insert(k, row);
                proof {
                    assert forall|j: int| 0 <= j < k implies (#[trigger] prev[j]).created_at
                        <= all[i as int].created_at by {
                        if j < k - 1 {
                            assert(prev[j].created_at <= prev[k - 1].created_at);
                        }
                    }
                    lemma_insert_by_created_at(prev, all[i as int], k as int);
                    assert(out@ =~= prev.take(k as int) + seq![all[i as int]] + prev.skip(
                        k as int,
                    ));
                    let fnow = all.take(i + 1).filter(pred);
                    assert(fnow =~= fprev.push(all[i as int]));
                    assert(fnow.drop_last() =~= fprev);
                    assert(fnow.last() == all[i as int]);
                    assert(sort_by_created(fnow) == insert_by_created(
                        sort_by_created(fprev),
                        all[i as int],
                    ));
                    lemma_insert_by_created(prev, all[i as int]);
                }
            } else {
                proof {
                    assert(all.take(i + 1).filter(pred) =~= all.take(i as int).filter(pred));
                }
            }
            i += 1;
        }
        proof {
            assert(all.take(all.len() as int) =~= all);
        }
        Ok(out)
    }

    /// The tracking row of a measurement for one agent, however the user
    /// is; used to resolve the user from agent-authenticated updates.
    pub fn get_measurement_tracking_by_agent(&self, measurement_id: u128, agent_id: &str) -> (r:
        Result<Option<MeasurementTracking>, DbError>)
        ensures
            ({
                let i = find_row_agent(self.measurement_tracking@, measurement_id, agent_id@);
                match r {
                    Ok(Some(row)) => i >= 0 && row == self.measurement_tracking@[i],
                    Ok(None) => i < 0,
                    Err(_) => false,
                }
            }),
    {
        match self.find_row_agent_idx(measurement_id, agent_id) {
            Some(i) => Ok(Some(self.measurement_tracking[i].clone())),
            None => Ok(None),
        }
    }

    /// The aggregated status of a measurement, or `None` when no row
    /// tracks it: agent counts, probe totals, completion, and the first
    /// and last stamps.
    pub fn get_measurement_status(&self, measurement_id: u128, user_hash: &str) -> (r: Result<
        Option<MeasurementStatus>,
        DbError,
    >)
        requires
            self.wf(),
        ensures
            ({
                let f = rows_for(self.measurement_tracking@, measurement_id, user_hash@);
                match r {
                    Ok(Some(st)) => {
                        &&& f.len() > 0
                        &&& st.measurement_id == measurement_id
                        &&& st.user_hash@ == user_hash@
                        &&& st.total_agents == f.len()
                        &&& st.total_expected_probes == sum_expected(f)
                        &&& st.total_sent_probes == sum_sent(f)
                        &&& st.completed_agents == count_complete(f)
                        &&& st.measurement_complete == (count_complete(f) == f.len())
                        &&& Some(st.started_at) == min_created(f)
                        &&& Some(st.last_updated) == max_updated(f)
                    },
                    Ok(None) => f.len() == 0,
                    Err(_) => false,
                }
            }),
    {
        let rows = match self.get_measurement_tracking(measurement_id, user_hash) {
            Ok(rows) => rows,
            Err(e) => {
                return Err(e);
            },
        };
        let ghost base = rows_for(self.measurement_tracking@, measurement_id, user_hash@);
        let ghost f = sort_by_created(base);
        proof {
            lemma_sort_by_created(base);
        }
        if rows.len() == 0 {
            return Ok(None);
        }
        proof {
            lemma_rows_for_wf(self.measurement_tracking@, measurement_id, user_hash@);
            assert forall|k: int| 0 <= k < f.len() implies (#[trigger] f[k]).expected_probes >= 0
                && f[k].sent_probes >= 0 by {
                let j = choose|j: int| 0 <= j < base.len() && f[k] == base[j];
            }
            lemma_sum_expected_bound(f);
            lemma_count_complete_bound(f);
        }
        let mut total_expected: i64 = 0;
        let mut total_sent: i64 = 0;
        let mut completed: i64 = 0;
        let mut started_at: i64 = rows[0].created_at;
        let mut last_updated: i64 = rows[0].updated_at;
        let mut i: usize = 0;
        while i < rows.len()
            invariant
                rows@ == f,
                f.len() <= MAX_TRACKING_ROWS,
                forall|k: int| 0 <= k < f.len() ==> (#[trigger] f[k]).expected_probes >= 0
                    && f[k].sent_probes >= 0,
                i <= f.len(),
                f.len() > 0,
                total_expected == sum_expected(f.take(i as int)),
                total_sent == sum_sent(f.take(i as int)),
                completed == count_complete(f.take(i as int)),
                0 <= total_expected <= i * 0x8000_0000,
                0 <= total_sent <= i * 0x8000_0000,
                0 <= completed <= i,
                i == 0 ==> started_at == f[0].created_at && last_updated == f[0].updated_at,
                i > 0 ==> Some(started_at) == min_created(f.take(i as int)),
                i > 0 ==> Some(last_updated) == max_updated(f.take(i as int)),
            decreases f.len() - i,
        {
            proof {
                assert(f.take(i + 1).drop_last() =~= f.take(i as int));
                assert(f.take(i + 1).last() == f[i as int]);
                assert(f[i as int].expected_probes >= 0 && f[i as int].sent_probes >= 0);
                if i == 0 {
                    assert(f.take(1).drop_last() =~= Seq::<MeasurementTracking>::empty());
                }
            }
            let t = &rows[i];
            total_expected = total_expected + (t.expected_probes as i64);
            total_sent = total_sent + (t.sent_probes as i64);
            if t.is_complete {
                completed = completed + 1;
            }
            if i == 0 {
                started_at = t.created_at;
                last_updated = t.updated_at;
            } else {
                if t.created_at < started_at {
                    started_at = t.created_at;
                }
                if t.updated_at > last_updated {
                    last_updated = t.updated_at;
                }
            }
            i += 1;
        }
        proof {
            assert(f.take(f.len() as int) =~= f);
        }
        let total = rows.len() as i64;
        Ok(
            Some(
                MeasurementStatus {
                    measurement_id,
                    user_hash: user_hash.to_owned(),
                    total_agents: total,
                    total_expected_probes: total_expected,
                    total_sent_probes: total_sent,
                    completed_agents: completed,
                    measurement_complete: completed == total,
                    started_at,
                    last_updated,
                },
            ),
        )
    }
}

impl Database {
    /// Usage stats over a window: defaulting to the current UTC day, the
    /// distinct submissions, the expected probes they booked, the limit
    /// that applies and the freshest update stamp.
    pub fn get_user_usage_stats(
        &self,
        user_id: &str,
        start_time: Option<i64>,
        end_time: Option<i64>,
        now: i64,
    ) -> (r: Result<UserUsageStats, DbError>)
        requires
            self.wf(),
            now >= 0,
        ensures
            ({
                let hash = spec_user_hash(user_id.spec_bytes());
                let start = match start_time {
                    Some(s) => s as int,
                    None => spec_today_start(now as int),
                };
                let end = match end_time {
                    Some(e) => e as int,
                    None => now as int,
                };
                let f = usage_rows(self.measurement_tracking@, hash, start, end);
                match r {
                    Ok(st) => {
                        &&& st.user_hash@ == hash
                        &&& st.submission_count == count_distinct(f)
                        &&& st.total_probes == clamp_u32(sum_expected(f))
                        &&& st.limit == self.spec_limit_of(hash)
                        &&& st.last_submitted == max_updated(f)
                    },
                    Err(_) => false,
                }
            }),
    {
        let hash = hash_user_identifier(user_id);
        let ghost hs = hash@;
        let start: i64 = match start_time {
            Some(s) => s,
            None => now - now % 86400,
        };
        let end: i64 = match end_time {
            Some(e) => e,
            None => now,
        };
        let ghost all = self.measurement_tracking@;
        let ghost pred = |t: MeasurementTracking| in_window(t, hs, start as int, end as int);
        let ghost f = usage_rows(all, hs, start as int, end as int);
        let mut total: i64 = 0;
        let mut distinct: usize = 0;
        let mut last_sub: Option<i64> = None;
        let mut mids: Vec<u128> = Vec::new();
        let mut i: usize = 0;
        proof {
            reveal(Seq::filter);
            assert(all.take(0).filter(pred) =~= Seq::<MeasurementTracking>::empty());
        }
        while i < self.measurement_tracking.len()
            invariant
                self.wf(),
                all == self.measurement_tracking@,
                hs == hash@,
                pred == (|t: MeasurementTracking| in_window(t, hs, start as int, end as int)),
                i <= all.len(),
                all.len() <= MAX_TRACKING_ROWS,
                total == sum_expected(all.take(i as int).filter(pred)),
                0 <= total <= all.take(i as int).filter(pred).len() * 0x8000_0000,
                all.take(i as int).filter(pred).len() <= i,
                distinct == count_distinct(all.take(i as int).filter(pred)),
                0 <= distinct <= all.take(i as int).filter(pred).len(),
                mids@.len() == all.take(i as int).filter(pred).len(),
                forall|k: int|
                    0 <= k < mids@.len() ==> #[trigger] mids@[k] == all.take(i as int).filter(
                        pred,
                    )[k].measurement_id,
                last_sub == max_updated(all.take(i as int).filter(pred)),
            decreases all.len() - i,
        {
            let t = &self.measurement_tracking[i];
            let ghost fprev = all.take(i as int).filter(pred);
            proof {
                reveal(Seq::filter);
                assert(all.take(i + 1).drop_last() =~= all.take(i as int));
                assert(all.take(i + 1).last() == all[i as int]);
                all.take(i as int).lemma_filter_len(pred);
                assert(all[i as int].expected_probes >= 0);
            }
            let matches = str_eq(t.user_hash.as_str(), hash.as_str()) && start <= t.created_at
                && t.created_at <= end;
            if matches {
                let ghost fnow = all.take(i + 1).filter(pred);
                proof {
                    assert(fnow =~= fprev.push(all[i as int]));
                    assert(fnow.drop_last() =~= fprev);
                }
                total = total + (t.expected_probes as i64);
                // is this measurement already counted?
                let mut seen = false;
                let mut k: usize = 0;
                while k < mids.len()
                    invariant
                        k <= mids@.len(),
                        seen <==> exists|j: int|
                            0 <= j < k && #[trigger] mids@[j] == t.measurement_id,
                        t == self.measurement_tracking[i as int],
                    decreases mids@.len() - k,
                {
                    if mids[k] == t.measurement_id {
                        seen = true;
                    }
                    k += 1;
                }
                proof {
                    if seen {
                        let j = choose|j: int|
                            0 <= j < mids@.len() && #[trigger] mids@[j] == t.measurement_id;
                        assert(fprev[j].measurement_id == t.measurement_id);
                        assert(mid_present(fprev, all[i as int].measurement_id));
                    } else {
                        if mid_present(fprev, all[i as int].measurement_id) {
                            let j = choose|j: int|
                                0 <= j < fprev.len() && (#[trigger] fprev[j]).measurement_id
                                    == all[i as int].measurement_id;
                            assert(mids@[j] == fprev[j].measurement_id);
                        }
                    }
                }
                if !seen {
                    distinct = distinct + 1;
                }
                mids.push(t.measurement_id);
                proof {
                    assert forall|k2: int| 0 <= k2 < mids@.len() implies #[trigger] mids@[k2]
                        == fnow[k2].measurement_id by {
                        if k2 < mids@.len() - 1 {
                            assert(fnow[k2] == fprev[k2]);
                        }
                    }
                }
                last_sub = match last_sub {
                    Some(m) => {
                        if t.updated_at >= m {
                            Some(t.updated_at)
                        } else {
                            Some(m)
                        }
                    },
                    None => Some(t.updated_at),
                };
            } else {
                proof {
                    assert(all.take(i + 1).filter(pred) =~= fprev);
                }
            }
            i += 1;
        }
        proof {
            assert(all.take(all.len() as int) =~= all);
        }
        let limit = match self.get_user_limit(user_id) {
            Ok(Some(l)) => l.probe_limit,
            Ok(None) => DEFAULT_PROBE_LIMIT,
            Err(e) => {
                return Err(e);
            },
        };
        let total_probes: u32 = if total > 0xffff_ffffi64 {
            0xffff_ffffu32
        } else {
            total as u32
        };
        Ok(
            UserUsageStats {
                user_hash: hash,
                submission_count: distinct as u32,
                total_probes,
                limit,
                last_submitted: last_sub,
            },
        )
    }

    /// Whether a user may submit `additional_probes` more: admitted exactly
    /// when the window's booked probes plus the new ones stay within the
    /// limit. The window is the last `days_back` days, or the current UTC
    /// day.
    pub fn can_user_submit_probes(
        &self,
        user_id: &str,
        additional_probes: u32,
        days_back: Option<i64>,
        now: i64,
    ) -> (r: Result<bool, DbError>)
        requires
            self.wf(),
            now >= 0,
            days_back matches Some(d) ==> 0 <= d <= 1000000,
        ensures
            ({
                let hash = spec_user_hash(user_id.spec_bytes());
                let start = match days_back {
                    Some(d) => now - d * 86400,
                    None => spec_today_start(now as int),
                };
                let f = usage_rows(self.measurement_tracking@, hash, start, now as int);
                match r {
                    Ok(b) => b == (clamp_u32(sum_expected(f)) + additional_probes
                        <= self.spec_limit_of(hash)),
                    Err(_) => false,
                }
            }),
    {
        let start: i64 = match days_back {
            Some(d) => now - d * 86400,
            None => now - now % 86400,
        };
        let stats = match self.get_user_usage_stats(user_id, Some(start), Some(now), now) {
            Ok(s) => s,
            Err(e) => {
                return Err(e);
            },
        };
        Ok((stats.total_probes as u64) + (additional_probes as u64) <= (stats.limit as u64))
    }
}

/// A nonnegative sum clamped into an `i32`.
pub open spec fn clamp_i32(v: int) -> i32 {
    if v > 0x7fff_ffff {
        0x7fff_ffffi32
    } else if v < 0 {
        0i32
    } else {
        v as i32
    }
}

/// Whether a usage record reports one measurement's totals faithfully: the
/// measurement has rows, and the record carries the summed sent probes and
/// the freshest stamp of its rows.
pub open spec fn recent_rec_ok(rows: Seq<MeasurementTracking>, rec: ProbeUsageRecord) -> bool {
    let f = rows_for(rows, rec.id, rec.user_hash@);
    &&& f.len() > 0
    &&& rec.probe_count == clamp_i32(sum_sent(f))
    &&& Some(rec.timestamp) == max_updated(f)
}

/// Whether any row carries the (measurement, user) pair.
pub open spec fn pair_present(rows: Seq<MeasurementTracking>, mid: u128, hash: Seq<char>) -> bool {
    exists|j: int|
        0 <= j < rows.len() && (#[trigger] rows[j]).measurement_id == mid && rows[j].user_hash@
            == hash
}

/// The distinct (measurement, user) pairs of the rows, each where it first
/// appears.
pub open spec fn group_keys(rows: Seq<MeasurementTracking>) -> Seq<(u128, Seq<char>)>
    decreases rows.len(),
{
    if rows.len() == 0 {
        Seq::empty()
    } else {
        group_keys(rows.drop_last()) + (if pair_present(
            rows.drop_last(),
            rows.last().measurement_id,
            rows.last().user_hash@,
        ) {
            Seq::empty()
        } else {
            seq![(rows.last().measurement_id, rows.last().user_hash@)]
        })
    }
}

/// Every listed pair is carried by some row.
pub proof fn lemma_group_keys_present(rows: Seq<MeasurementTracking>)
    ensures
        forall|k: int|
            0 <= k < group_keys(rows).len() ==> pair_present(
                rows,
                (#[trigger] group_keys(rows)[k]).0,
                group_keys(rows)[k].1,
            ),
    decreases rows.len(),
{
    if rows.len() > 0 {
        let d = rows.drop_last();
        lemma_group_keys_present(d);
        assert forall|k: int|
            0 <= k < group_keys(rows).len() implies pair_present(
            rows,
            (#[trigger] group_keys(rows)[k]).0,
            group_keys(rows)[k].1,
        ) by {
            if k < group_keys(d).len() {
                assert(group_keys(rows)[k] == group_keys(d)[k]);
                assert(pair_present(d, group_keys(d)[k].0, group_keys(d)[k].1));
                let j = choose|j: int|
                    0 <= j < d.len() && (#[trigger] d[j]).measurement_id == group_keys(d)[k].0
                        && d[j].user_hash@ == group_keys(d)[k].1;
                assert(rows[j] == d[j]);
            } else {
                assert(group_keys(rows)[k] == (
                    rows.last().measurement_id,
                    rows.last().user_hash@,
                ));
                assert(rows[rows.len() - 1] == rows.last());
            }
        }
    }
}

impl Database {
    /// Recent submissions: one record for every distinct (measurement,
    /// user) pair, with the summed sent probes and the latest stamp, in
    /// first-submission order; only the cap (`limit`, or one hundred when
    /// unset) cuts the list short.
    pub fn get_recent_usage(&self, limit: Option<i32>) -> (r: Result<Vec<ProbeUsageRecord>, DbError>)
        requires
            self.wf(),
        ensures
            ({
                let cap: int = match limit {
                    Some(l) => if l < 0 {
                        0
                    } else {
                        l as int
                    },
                    None => 100,
                };
                let gk = group_keys(self.measurement_tracking@);
                match r {
                    Ok(recs) => {
                        &&& recs@.len() == (if cap <= gk.len() {
                            cap
                        } else {
                            gk.len() as int
                        })
                        &&& (forall|k: int|
                            0 <= k < recs@.len() ==> (#[trigger] recs@[k]).id == gk[k].0
                                && recs@[k].user_hash@ == gk[k].1)
                        &&& (forall|k: int|
                            0 <= k < recs@.len() ==> recent_rec_ok(
                                self.measurement_tracking@,
                                #[trigger] recs@[k],
                            ))
                        &&& (forall|x: int, y: int|
                            0 <= x < y < recs@.len() ==> !((#[trigger] recs@[x]).id == (
                            #[trigger] recs@[y]).id && recs@[x].user_hash@ == recs@[y].user_hash@))
                    },
                    Err(_) => false,
                }
            }),
    {
        let cap: usize = match limit {
            Some(l) => {
                if l < 0 {
                    0
                } else {
                    l as usize
                }
            },
            None => 100,
        };
        let ghost all = self.measurement_tracking@;
        let mut groups: Vec<ProbeUsageRecord> = Vec::new();
        let mut i: usize = 0;
        proof {
            reveal(Seq::filter);
        }
        while i < self.measurement_tracking.len()
            invariant
                self.wf(),
                all == self.measurement_tracking@,
                i <= all.len(),
                forall|k: int|
                    0 <= k < groups@.len() ==> recent_rec_ok(
                        all.take(i as int),
                        #[trigger] groups@[k],
                    ),
                forall|x: int, y: int|
                    0 <= x < y < groups@.len() ==> !((#[trigger] groups@[x]).id == (
                    #[trigger] groups@[y]).id && groups@[x].user_hash@ == groups@[y].user_hash@),
                forall|j: int| #![trigger all[j]]
                    0 <= j < i ==> exists|k: int|
                        0 <= k < groups@.len() && (#[trigger] groups@[k]).id == all[j].measurement_id
                            && groups@[k].user_hash@ == all[j].user_hash@,
                groups@.len() == group_keys(all.take(i as int)).len(),
                forall|k: int|
                    0 <= k < groups@.len() ==> (#[trigger] groups@[k]).id == group_keys(
                        all.take(i as int),
                    )[k].0 && groups@[k].user_hash@ == group_keys(all.take(i as int))[k].1,
            decreases all.len() - i,
        {
            let t = &self.measurement_tracking[i];
            let mut found: Option<usize> = None;
            let mut k: usize = 0;
            while k < groups.len() && found.is_none()
                invariant
                    k <= groups@.len(),
                    t == self.measurement_tracking[i as int],
                    all == self.measurement_tracking@,
                    i < all.len(),
                    match found {
                        Some(f) => f < groups@.len() && groups@[f as int].id == all[i as int].measurement_id
                            && groups@[f as int].user_hash@ == all[i as int].user_hash@,
                        None => forall|x: int|
                            0 <= x < k ==> !((#[trigger] groups@[x]).id == all[i as int].measurement_id
                                && groups@[x].user_hash@ == all[i as int].user_hash@),
                    },
                decreases groups@.len() - k + (if found.is_none() {
                    1int
                } else {
                    0int
                }),
            {
                if groups[k].id == t.measurement_id && str_eq(
                    groups[k].user_hash.as_str(),
                    t.user_hash.as_str(),
                ) {
                    found = Some(k);
                } else {
                    k += 1;
                }
            }
            let ghost prevg = groups@;
            match found {
                Some(f) => {
                    let merged: i64 = (groups[f].probe_count as i64) + (t.sent_probes as i64);
                    let new_count: i32 = if merged > 0x7fff_ffffi64 {
                        0x7fff_ffffi32
                    } else {
                        merged as i32
                    };
                    let new_ts: i64 = if t.updated_at > groups[f].timestamp {
                        t.updated_at
                    } else {
                        groups[f].timestamp
                    };
                    let g = &mut groups;
                    let slot = &mut g[f];
                    slot.probe_count = new_count;
                    slot.timestamp = new_ts;
                    proof {
                        lemma_group_step(all, i as int, prevg, groups@, f as int);
                        assert forall|j: int| #![trigger all[j]] 0 <= j < i + 1 implies exists|k2: int|
                            0 <= k2 < groups@.len() && (#[trigger] groups@[k2]).id
                                == all[j].measurement_id && groups@[k2].user_hash@
                                == all[j].user_hash@ by {
                            if j < i {
                                let k2 = choose|k2: int|
                                    0 <= k2 < prevg.len() && (#[trigger] prevg[k2]).id
                                        == all[j].measurement_id && prevg[k2].user_hash@
                                        == all[j].user_hash@;
                                assert(groups@[k2].id == prevg[k2].id && groups@[k2].user_hash@
                                    == prevg[k2].user_hash@);
                            } else {
                                assert(groups@[f as int].id == all[i as int].measurement_id
                                    && groups@[f as int].user_hash@ == all[i as int].user_hash@);
                            }
                        }
                        // the pair is already listed, so the key list does not grow
                        assert(all.take(i + 1).drop_last() =~= all.take(i as int));
                        assert(all.take(i + 1).last() == all[i as int]);
                        lemma_group_keys_present(all.take(i as int));
                        assert(group_keys(all.take(i as int))[f as int].0
                            == all[i as int].measurement_id);
                        assert(group_keys(all.take(i as int))[f as int].1
                            == all[i as int].user_hash@);
                        assert(pair_present(
                            all.take(i as int),
                            all[i as int].measurement_id,
                            all[i as int].user_hash@,
                        ));
                        assert(group_keys(all.take(i + 1)) =~= group_keys(all.take(i as int)));
                        assert forall|k2: int|
                            0 <= k2 < groups@.len() implies (#[trigger] groups@[k2]).id
                            == group_keys(all.take(i + 1))[k2].0 && groups@[k2].user_hash@
                            == group_keys(all.take(i + 1))[k2].1 by {
                            assert(group_keys(all.take(i + 1))[k2] == group_keys(
                                all.take(i as int),
                            )[k2]);
                            if k2 != f {
                                assert(groups@[k2] == prevg[k2]);
                            }
                        }
                    }
                },
                None => {
                    groups.push(
                        ProbeUsageRecord {
                            id: t.measurement_id,
                            user_hash: t.user_hash.clone(),
                            probe_count: if t.sent_probes < 0 {
                                0
                            } else {
                                t.sent_probes
                            },
                            timestamp: t.updated_at,
                        },
                    );
                    proof {
                        assert forall|j: int| 0 <= j < i implies !((#[trigger] all[j]).measurement_id
                            == all[i as int].measurement_id && all[j].user_hash@
                            == all[i as int].user_hash@) by {
                            let k2 = choose|k2: int|
                                0 <= k2 < prevg.len() && (#[trigger] prevg[k2]).id
                                    == all[j].measurement_id && prevg[k2].user_hash@
                                    == all[j].user_hash@;
                            if all[j].measurement_id == all[i as int].measurement_id
                                && all[j].user_hash@ == all[i as int].user_hash@ {
                                assert(prevg[k2].id == all[i as int].measurement_id
                                    && prevg[k2].user_hash@ == all[i as int].user_hash@);
                            }
                        }
                        assert(groups@.drop_last() =~= prevg);
                        lemma_group_new(all, i as int, prevg, groups@);
                        // a first-seen pair extends the key list by itself
                        if pair_present(
                            all.take(i as int),
                            all[i as int].measurement_id,
                            all[i as int].user_hash@,
                        ) {
                            let j = choose|j: int|
                                0 <= j < all.take(i as int).len() && (#[trigger] all.take(
                                    i as int,
                                )[j]).measurement_id == all[i as int].measurement_id && all.take(
                                    i as int,
                                )[j].user_hash@ == all[i as int].user_hash@;
                            assert(all.take(i as int)[j] == all[j]);
                            assert(false);
                        }
                        assert(all.take(i + 1).drop_last() =~= all.take(i as int));
                        assert(all.take(i + 1).last() == all[i as int]);
                        assert(group_keys(all.take(i + 1)) =~= group_keys(all.take(i as int))
                            + seq![
                            (all[i as int].measurement_id, all[i as int].user_hash@),
                        ]);
                        assert forall|k2: int|
                            0 <= k2 < groups@.len() implies (#[trigger] groups@[k2]).id
                            == group_keys(all.take(i + 1))[k2].0 && groups@[k2].user_hash@
                            == group_keys(all.take(i + 1))[k2].1 by {
                            if k2 < prevg.len() {
                                assert(groups@[k2] == prevg[k2]);
                                assert(group_keys(all.take(i + 1))[k2] == group_keys(
                                    all.take(i as int),
                                )[k2]);
                            } else {
                                assert(group_keys(all.take(i + 1))[k2] == (
                                    all[i as int].measurement_id,
                                    all[i as int].user_hash@,
                                ));
                            }
                        }
                        assert forall|j: int| #![trigger all[j]] 0 <= j < i + 1 implies exists|k2: int|
                            0 <= k2 < groups@.len() && (#[trigger] groups@[k2]).id
                                == all[j].measurement_id && groups@[k2].user_hash@
                                == all[j].user_hash@ by {
                            if j < i {
                                let k2 = choose|k2: int|
                                    0 <= k2 < prevg.len() && (#[trigger] prevg[k2]).id
                                        == all[j].measurement_id && prevg[k2].user_hash@
                                        == all[j].user_hash@;
                                assert(groups@[k2] == prevg[k2]);
                            } else {
                                assert(groups@[groups@.len() - 1].id == all[i as int].measurement_id);
                            }
                        }
                    }
                },
            }
            i += 1;
        }
        proof {
            assert(all.take(all.len() as int) =~= all);
        }
        let ghost full = groups@;
        groups.truncate(cap);
        proof {
            assert(full.len() == group_keys(all).len());
            if cap <= full.len() {
                assert(groups@ == full.subrange(0, cap as int));
            } else {
                assert(groups@ == full);
            }
            assert(forall|k: int|
                0 <= k < groups@.len() ==> recent_rec_ok(all, #[trigger] groups@[k]));
            assert forall|k: int|
                0 <= k < groups@.len() implies (#[trigger] groups@[k]).id == group_keys(all)[k].0
                && groups@[k].user_hash@ == group_keys(all)[k].1 by {
                assert(groups@[k] == full[k]);
            }
        }
        Ok(groups)
    }
}

/// Folding one more row into its existing group keeps every group
/// faithful to the longer prefix.
proof fn lemma_group_step(
    all: Seq<MeasurementTracking>,
    i: int,
    before: Seq<ProbeUsageRecord>,
    after: Seq<ProbeUsageRecord>,
    f: int,
)
    requires
        0 <= i < all.len(),
        forall|j: int| 0 <= j < all.len() ==> (#[trigger] all[j]).expected_probes >= 0
            && all[j].sent_probes >= 0,
        forall|k: int| 0 <= k < before.len() ==> recent_rec_ok(all.take(i), #[trigger] before[k]),
        forall|x: int, y: int|
            0 <= x < y < before.len() ==> !((#[trigger] before[x]).id == (#[trigger] before[y]).id
                && before[x].user_hash@ == before[y].user_hash@),
        0 <= f < before.len(),
        after.len() == before.len(),
        forall|k: int| 0 <= k < before.len() && k != f ==> #[trigger] after[k] == before[k],
        after[f].id == before[f].id,
        after[f].user_hash@ == before[f].user_hash@,
        before[f].id == all[i].measurement_id,
        before[f].user_hash@ == all[i].user_hash@,
        after[f].probe_count == clamp_i32(before[f].probe_count + all[i].sent_probes),
        after[f].timestamp == (if all[i].updated_at > before[f].timestamp {
            all[i].updated_at
        } else {
            before[f].timestamp
        }),
    ensures
        forall|k: int| 0 <= k < after.len() ==> recent_rec_ok(all.take(i + 1), #[trigger] after[k]),
        forall|x: int, y: int|
            0 <= x < y < after.len() ==> !((#[trigger] after[x]).id == (#[trigger] after[y]).id
                && after[x].user_hash@ == after[y].user_hash@),
{
    reveal(Seq::filter);
    assert(all.take(i + 1).drop_last() =~= all.take(i));
    assert(all.take(i + 1).last() == all[i]);
    assert forall|k: int| 0 <= k < after.len() implies recent_rec_ok(
        all.take(i + 1),
        #[trigger] after[k],
    ) by {
        reveal(Seq::filter);
        assert(all.take(i + 1).drop_last() =~= all.take(i));
        let fl = rows_for(all.take(i + 1), after[k].id, after[k].user_hash@);
        let fp = rows_for(all.take(i), after[k].id, after[k].user_hash@);
        if k == f {
            assert(fl =~= fp.push(all[i]));
            assert(fl.drop_last() =~= fp);
            assert(fl.last() == all[i]);
            assert(recent_rec_ok(all.take(i), before[k]));
            assert(sum_sent(fl) == sum_sent(fp) + all[i].sent_probes);
            assert forall|j: int| 0 <= j < all.take(i).len() implies (#[trigger] all.take(
                i,
            )[j]).expected_probes >= 0 && all.take(i)[j].sent_probes >= 0 by {
                assert(all.take(i)[j] == all[j]);
            }
            lemma_rows_for_wf(all.take(i), after[k].id, after[k].user_hash@);
            lemma_sum_expected_bound(fp);
            assert(after[k].probe_count == clamp_i32(sum_sent(fl)));
            assert(Some(after[k].timestamp) == max_updated(fl));
        } else {
            assert(after[k] == before[k]);
            assert(recent_rec_ok(all.take(i), before[k]));
            assert(!(before[k].id == all[i].measurement_id && before[k].user_hash@
                == all[i].user_hash@));
            assert(fl =~= fp);
        }
    }
}

/// Opening a fresh group for a first-seen pair keeps every group faithful.
proof fn lemma_group_new(
    all: Seq<MeasurementTracking>,
    i: int,
    before: Seq<ProbeUsageRecord>,
    after: Seq<ProbeUsageRecord>,
)
    requires
        0 <= i < all.len(),
        forall|j: int| 0 <= j < all.len() ==> (#[trigger] all[j]).expected_probes >= 0
            && all[j].sent_probes >= 0,
        forall|k: int| 0 <= k < before.len() ==> recent_rec_ok(all.take(i), #[trigger] before[k]),
        forall|x: int, y: int|
            0 <= x < y < before.len() ==> !((#[trigger] before[x]).id == (#[trigger] before[y]).id
                && before[x].user_hash@ == before[y].user_hash@),
        forall|x: int|
            0 <= x < before.len() ==> !((#[trigger] before[x]).id == all[i].measurement_id
                && before[x].user_hash@ == all[i].user_hash@),
        forall|j: int|
            0 <= j < i ==> !((#[trigger] all[j]).measurement_id == all[i].measurement_id
                && all[j].user_hash@ == all[i].user_hash@),
        after.len() == before.len() + 1,
        after.drop_last() == before,
        after.last().id == all[i].measurement_id,
        after.last().user_hash@ == all[i].user_hash@,
        after.last().probe_count == clamp_i32(all[i].sent_probes as int),
        after.last().timestamp == all[i].updated_at,
    ensures
        forall|k: int| 0 <= k < after.len() ==> recent_rec_ok(all.take(i + 1), #[trigger] after[k]),
        forall|x: int, y: int|
            0 <= x < y < after.len() ==> !((#[trigger] after[x]).id == (#[trigger] after[y]).id
                && after[x].user_hash@ == after[y].user_hash@),
{
    reveal(Seq::filter);
    assert(all.take(i + 1).drop_last() =~= all.take(i));
    assert(all.take(i + 1).last() == all[i]);
    assert forall|k: int| 0 <= k < after.len() implies recent_rec_ok(
        all.take(i + 1),
        #[trigger] after[k],
    ) by {
        reveal(Seq::filter);
        assert(all.take(i + 1).drop_last() =~= all.take(i));
        let fl = rows_for(all.take(i + 1), after[k].id, after[k].user_hash@);
        let fp = rows_for(all.take(i), after[k].id, after[k].user_hash@);
        if k == after.len() - 1 {
            assert(fl =~= fp.push(all[i]));
            assert(fl.drop_last() =~= fp);
            assert(fl.last() == all[i]);
            if fp.len() > 0 {
                lemma_rows_for_elem(all.take(i), after[k].id, after[k].user_hash@, 0);
                assert(fp[0].measurement_id == after[k].id);
                assert(fp[0].user_hash@ == after[k].user_hash@);
                let ox = choose|ox: int|
                    0 <= ox < all.take(i).len() && all.take(i)[ox] == fp[0];
                assert(all.take(i)[ox] == all[ox]);
                assert(all[ox].measurement_id == all[i].measurement_id);
                assert(all[ox].user_hash@ == all[i].user_hash@);
                assert(false);
            }
            assert(fp.len() == 0);
            assert(fp =~= Seq::<MeasurementTracking>::empty());
            assert(fl.len() == 1);
            assert(sum_sent(fp) == 0);
            assert(max_updated(fp) is None);
            assert(sum_sent(fl) == sum_sent(fl.drop_last()) + fl.last().sent_probes);
            assert(sum_sent(fl) == all[i].sent_probes);
            assert(max_updated(fl) == Some(all[i].updated_at));
        } else {
            assert(after[k] == before[k]);
            assert(recent_rec_ok(all.take(i), before[k]));
            assert(!(before[k].id == all[i].measurement_id && before[k].user_hash@
                == all[i].user_hash@));
            assert(fl =~= fp);
        }
    }
    assert forall|x: int, y: int| 0 <= x < y < after.len() implies !((#[trigger] after[x]).id == (
    #[trigger] after[y]).id && after[x].user_hash@ == after[y].user_hash@) by {
        if y == after.len() - 1 {
            assert(after[x] == before[x]);
        } else {
            assert(after[x] == before[x] && after[y] == before[y]);
        }
    }
}

/// Every row the pair filter keeps occurs in the rows it was taken from.
proof fn lemma_rows_for_elem(rows: Seq<MeasurementTracking>, mid: u128, hash: Seq<char>, x: int)
    requires
        0 <= x < rows_for(rows, mid, hash).len(),
    ensures
        exists|ox: int| 0 <= ox < rows.len() && rows[ox] == rows_for(rows, mid, hash)[x],
        rows_for(rows, mid, hash)[x].measurement_id == mid,
        rows_for(rows, mid, hash)[x].user_hash@ == hash,
    decreases rows.len(),
{
    reveal(Seq::filter);
    if rows.len() > 0 {
        let d = rows.drop_last();
        if rows.last().measurement_id == mid && rows.last().user_hash@ == hash {
            assert(rows_for(rows, mid, hash) == rows_for(d, mid, hash).push(rows.last()));
            if x < rows_for(d, mid, hash).len() {
                lemma_rows_for_elem(d, mid, hash, x);
                let ox = choose|ox: int|
                    0 <= ox < d.len() && d[ox] == rows_for(d, mid, hash)[x];
                assert(rows[ox] == d[ox]);
                assert(rows_for(rows, mid, hash)[x] == rows_for(d, mid, hash)[x]);
            } else {
                assert(rows_for(rows, mid, hash)[x] == rows.last());
                assert(rows[rows.len() - 1] == rows.last());
            }
        } else {
            assert(rows_for(rows, mid, hash) == rows_for(d, mid, hash));
            lemma_rows_for_elem(d, mid, hash, x);
            let ox = choose|ox: int| 0 <= ox < d.len() && d[ox] == rows_for(d, mid, hash)[x];
            assert(rows[ox] == d[ox]);
        }
    }
}

pub proof fn lemma_rows_for_wf(rows: Seq<MeasurementTracking>, mid: u128, hash: Seq<char>)
    requires
        forall|i: int| 0 <= i < rows.len() ==> (#[trigger] rows[i]).expected_probes >= 0
            && rows[i].sent_probes >= 0,
    ensures
        rows_for(rows, mid, hash).len() <= rows.len(),
        forall|i: int|
            0 <= i < rows_for(rows, mid, hash).len() ==> (#[trigger] rows_for(
                rows,
                mid,
                hash,
            )[i]).expected_probes >= 0 && rows_for(rows, mid, hash)[i].sent_probes >= 0,
    decreases rows.len(),
{
    reveal(Seq::filter);
    let pred = |t: MeasurementTracking| t.measurement_id == mid && t.user_hash@ == hash;
    rows.lemma_filter_len(pred);
    if rows.len() > 0 {
        let d = rows.drop_last();
        assert forall|i: int| 0 <= i < d.len() implies (#[trigger] d[i]).expected_probes >= 0
            && d[i].sent_probes >= 0 by {
            assert(d[i] == rows[i]);
        }
        lemma_rows_for_wf(d, mid, hash);
        d.lemma_filter_len(pred);
        if pred(rows.last()) {
            assert forall|i: int| 0 <= i < rows_for(rows, mid, hash).len() implies (
            #[trigger] rows_for(rows, mid, hash)[i]).expected_probes >= 0 && rows_for(
                rows,
                mid,
                hash,
            )[i].sent_probes >= 0 by {
                if i < rows_for(rows, mid, hash).len() - 1 {
                    assert(rows_for(rows, mid, hash)[i] == rows_for(d, mid, hash)[i]);
                } else {
                    assert(rows_for(rows, mid, hash)[i] == rows.last());
                }
            }
        } else {
            assert(rows_for(rows, mid, hash) == rows_for(d, mid, hash));
        }
    }
}

} // verus!
