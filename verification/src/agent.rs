//! The in-memory agent registry: agents, their configurations and health,
//! registration with an idempotence check on the shared secret, and the
//! staleness sweep.
use vstd::prelude::*;

verus! {

/// A probing agent as the registry holds it. The secret authenticates
/// re-registration and must never appear in a serialized view; see
/// [`Agent::to_public`].
#[derive(Debug)]
pub struct Agent {
    pub id: String,
    pub secret: String,
    pub config: Option<Vec<AgentConfig>>,
    pub health: Option<HealthStatus>,
    pub last_seen: i64,
}

/// The serializable projection of an agent: every field but the secret.
#[derive(Debug)]
pub struct AgentPublic {
    pub id: String,
    pub config: Option<Vec<AgentConfig>>,
    pub health: Option<HealthStatus>,
    pub last_seen: i64,
}

/// The two configuration lists hold the same configurations.
pub open spec fn config_eq(a: Option<Vec<AgentConfig>>, b: Option<Vec<AgentConfig>>) -> bool {
    match (a, b) {
        (Some(x), Some(y)) => x@ == y@,
        (None, None) => true,
        _ => false,
    }
}

impl Agent {
    /// A fresh agent, registered now, with no configuration or health yet.
    pub fn new(id: String, secret: String, now: i64) -> (r: Agent)
        ensures
            r.id == id,
            r.secret == secret,
            r.config is None,
            r.health is None,
            r.last_seen == now,
    {
        Agent { id, secret, config: None, health: None, last_seen: now }
    }

    /// Every field of the agent except the shared secret; what leaves the
    /// process is built from this view, so no serialization of an agent
    /// carries the secret.
    pub fn to_public(&self) -> (r: AgentPublic)
        ensures
            r.id == self.id,
            config_eq(r.config, self.config),
            r.health == self.health,
            r.last_seen == self.last_seen,
    {
        AgentPublic {
            id: self.id.clone(),
            config: clone_config_opt(&self.config),
            health: clone_health_opt(&self.health),
            last_seen: self.last_seen,
        }
    }
}

/// How an agent is observed to be doing.
#[derive(PartialEq, Eq, Structural, Clone, Copy, Debug)]
pub enum AgentStatus {
    Active,
    Inactive,
    Unknown,
}

/// One probing configuration of an agent. Only `src_ipv6_prefix` matters to
/// the prefix allocator; the rest rides along to the agent.
#[derive(Debug)]
pub struct AgentConfig {
    pub batch_size: u64,
    pub instance_id: u16,
    pub dry_run: bool,
    pub min_ttl: Option<u8>,
    pub max_ttl: Option<u8>,
    pub integrity_check: bool,
    pub interface: String,
    pub src_ipv4_prefix: Option<String>,
    pub src_ipv6_prefix: Option<String>,
    pub packets: u64,
    pub probing_rate: u64,
    pub rate_limiting_method: String,
}

pub fn default_caracat_batch_size() -> (r: u64)
    ensures
        r == 1000,
{
    1000
}

pub fn default_caracat_instance_id() -> (r: u16)
    ensures
        r == 0,
{
    0
}

pub fn default_caracat_interface() -> (r: String)
    ensures
        r@ == "eth0"@,
{
    String::from_str("eth0")
}

pub fn default_caracat_packets() -> (r: u64)
    ensures
        r == 10000,
{
    10000
}

pub fn default_caracat_probing_rate() -> (r: u64)
    ensures
        r == 1000,
{
    1000
}

pub fn default_caracat_rate_limiting_method() -> (r: String)
    ensures
        r@ == "None"@,
{
    String::from_str("None")
}

impl Default for AgentConfig {
    /// The defaults an absent field falls back to.
    fn default() -> (r: AgentConfig)
        ensures
            r.batch_size == 1000,
            r.instance_id == 0,
            !r.dry_run,
            r.min_ttl is None,
            r.max_ttl is None,
            !r.integrity_check,
            r.interface@ == "eth0"@,
            r.src_ipv4_prefix is None,
            r.src_ipv6_prefix is None,
            r.packets == 10000,
            r.probing_rate == 1000,
            r.rate_limiting_method@ == "None"@,
    {
        AgentConfig {
            batch_size: 1000,
            instance_id: 0,
            dry_run: false,
            min_ttl: None,
            max_ttl: None,
            integrity_check: false,
            interface: String::from_str("eth0"),
            src_ipv4_prefix: None,
            src_ipv6_prefix: None,
            packets: 10000,
            probing_rate: 1000,
            rate_limiting_method: String::from_str("None"),
        }
    }
}

impl Clone for AgentConfig {
    fn clone(&self) -> (r: Self)
        ensures
            r == *self,
    {
        AgentConfig {
            batch_size: self.batch_size,
            instance_id: self.instance_id,
            dry_run: self.dry_run,
            min_ttl: self.min_ttl,
            max_ttl: self.max_ttl,
            integrity_check: self.integrity_check,
            interface: self.interface.clone(),
            src_ipv4_prefix: clone_string_opt(&self.src_ipv4_prefix),
            src_ipv6_prefix: clone_string_opt(&self.src_ipv6_prefix),
            packets: self.packets,
            probing_rate: self.probing_rate,
            rate_limiting_method: self.rate_limiting_method.clone(),
        }
    }
}

/// An agent's health report.
#[derive(Debug)]
pub struct HealthStatus {
    pub healthy: bool,
    pub last_check: i64,
    pub message: Option<String>,
}

impl Clone for HealthStatus {
    fn clone(&self) -> (r: Self)
        ensures
            r == *self,
    {
        HealthStatus {
            healthy: self.healthy,
            last_check: self.last_check,
            message: clone_string_opt(&self.message),
        }
    }
}

fn clone_string_opt(s: &Option<String>) -> (r: Option<String>)
    ensures
        r == *s,
{
    match s {
        Some(x) => Some(x.clone()),
        None => None,
    }
}

fn clone_health_opt(h: &Option<HealthStatus>) -> (r: Option<HealthStatus>)
    ensures
        r == *h,
{
    match h {
        Some(x) => Some(x.clone()),
        None => None,
    }
}

/// A copy of a configuration list, holding the same configurations.
pub fn clone_configs(v: &Vec<AgentConfig>) -> (r: Vec<AgentConfig>)
    ensures
        r@ == v@,
{
    let mut out: Vec<AgentConfig> = Vec::new();
    let mut i: usize = 0;
    while i < v.len()
        invariant
            i <= v@.len(),
            out@ =~= v@.take(i as int),
        decreases v@.len() - i,
    {
        out.push(v[i].clone());
        proof {
            assert(out@ =~= v@.take(i + 1));
        }
        i += 1;
    }
    proof {
        assert(v@.take(v@.len() as int) =~= v@);
    }
    out
}

fn clone_config_opt(c: &Option<Vec<AgentConfig>>) -> (r: Option<Vec<AgentConfig>>)
    ensures
        config_eq(r, *c),
{
    match c {
        Some(x) => Some(clone_configs(x)),
        None => None,
    }
}

/// Index of the agent with the given id, or -1.
pub open spec fn find_agent(agents: Seq<Agent>, id: Seq<char>) -> int
    decreases agents.len(),
{
    if agents.len() == 0 {
        -1
    } else if agents[0].id@ == id {
        0
    } else {
        let r = find_agent(agents.drop_first(), id);
        if r < 0 {
            -1
        } else {
            r + 1
        }
    }
}

pub proof fn lemma_find_agent(agents: Seq<Agent>, id: Seq<char>)
    ensures
        find_agent(agents, id) >= 0 ==> {
            &&& find_agent(agents, id) < agents.len()
            &&& agents[find_agent(agents, id)].id@ == id
            &&& forall|j: int| 0 <= j < find_agent(agents, id) ==> (#[trigger] agents[j]).id@ != id
        },
        find_agent(agents, id) < 0 ==> forall|j: int|
            0 <= j < agents.len() ==> (#[trigger] agents[j]).id@ != id,
    decreases agents.len(),
{
    if agents.len() > 0 && agents[0].id@ != id {
        let d = agents.drop_first();
        lemma_find_agent(d, id);
        if find_agent(d, id) >= 0 {
            assert(agents[find_agent(agents, id)] == d[find_agent(d, id)]);
            assert forall|j: int| 0 <= j < find_agent(agents, id) implies (#[trigger] agents[j]).id@
                != id by {
                if j > 0 {
                    assert(d[j - 1] == agents[j]);
                }
            }
        } else {
            assert forall|j: int| 0 <= j < agents.len() implies (#[trigger] agents[j]).id@ != id by {
                if j > 0 {
                    assert(d[j - 1] == agents[j]);
                }
            }
        }
    }
}

/// The in-memory directory of agents, keyed by their unique ids.
#[derive(Debug)]
pub struct AgentStore {
    pub agents: Vec<Agent>,
}

impl AgentStore {
    /// No two entries share an id.
    pub open spec fn wf(self) -> bool {
        forall|i: int, j: int|
            0 <= i < j < self.agents@.len() ==> (#[trigger] self.agents@[i]).id@ != (
            #[trigger] self.agents@[j]).id@
    }

    /// The entry under the given id.
    pub open spec fn spec_get(self, id: Seq<char>) -> Option<Agent> {
        if find_agent(self.agents@, id) >= 0 {
            Some(self.agents@[find_agent(self.agents@, id)])
        } else {
            None
        }
    }

    pub fn new() -> (r: AgentStore)
        ensures
            r.wf(),
            r.agents@.len() == 0,
    {
        AgentStore { agents: Vec::new() }
    }

    fn find(&self, id: &str) -> (r: Option<usize>)
        ensures
            match r {
                Some(i) => find_agent(self.agents@, id@) == i && i < self.agents@.len(),
                None => find_agent(self.agents@, id@) < 0,
            },
    {
        proof {
            lemma_find_agent(self.agents@, id@);
        }
        let mut i: usize = 0;
        while i < self.agents.len()
            invariant
                i <= self.agents@.len(),
                forall|j: int| 0 <= j < i ==> (#[trigger] self.agents@[j]).id@ != id@,
                find_agent(self.agents@, id@) >= 0 ==> {
                    &&& find_agent(self.agents@, id@) < self.agents@.len()
                    &&& self.agents@[find_agent(self.agents@, id@)].id@ == id@
                    &&& forall|j: int|
                        0 <= j < find_agent(self.agents@, id@) ==> (#[trigger] self.agents@[j]).id@
                            != id@
                },
                find_agent(self.agents@, id@) < 0 ==> forall|j: int|
                    0 <= j < self.agents@.len() ==> (#[trigger] self.agents@[j]).id@ != id@,
            decreases self.agents@.len() - i,
        {
            if str_eq(self.agents[i].id.as_str(), id) {
                return Some(i);
            }
            i += 1;
        }
        None
    }

    /// Registers an agent: idempotent when the same id arrives with the
    /// same secret, refused when the secret differs, fresh otherwise.
    pub fn add_agent(&mut self, id: String, secret: String, now: i64) -> (r: Result<(), String>)
        requires
            old(self).wf(),
        ensures
            final(self).wf(),
            match (r, old(self).spec_get(id@)) {
                (Ok(_), Some(existing)) => existing.secret@ == secret@ && *final(self) == *old(self),
                (Ok(_), None) => final(self).agents@ == old(self).agents@.push(
                    Agent { id: id, secret: secret, config: None, health: None, last_seen: now },
                ),
                (Err(e), Some(existing)) => existing.secret@ != secret@ && *final(self) == *old(self)
                    && e@ == "Agent with id '"@ + id@ + "' already exists"@,
                (Err(_), None) => false,
            },
    {
        match self.find(id.as_str()) {
            Some(i) => {
                proof {
                    lemma_find_agent(self.agents@, id@);
                }
                if str_eq(self.agents[i].secret.as_str(), secret.as_str()) {
                    Ok(())
                } else {
                    let mut m = String::from_str("Agent with id '");
                    m.append(id.as_str());
                    m.append("' already exists");
                    Err(m)
                }
            },
            None => {
                proof {
                    lemma_find_agent(self.agents@, id@);
                }
                let a = Agent { id, secret, config: None, health: None, last_seen: now };
                self.agents.push(a);
                proof {
                    assert forall|i: int, j: int|
                        0 <= i < j < self.agents@.len() implies (#[trigger] self.agents@[i]).id@
                        != (#[trigger] self.agents@[j]).id@ by {
                        if j == self.agents@.len() - 1 {
                            assert(old(self).agents@[i].id@ != self.agents@[j].id@);
                        }
                    }
                }
                Ok(())
            },
        }
    }

    /// The agent under the given id.
    pub fn get(&self, id: &str) -> (r: Option<&Agent>)
        ensures
            match r {
                Some(a) => self.spec_get(id@) == Some(*a),
                None => self.spec_get(id@) is None,
            },
    {
        match self.find(id) {
            Some(i) => {
                proof {
                    lemma_find_agent(self.agents@, id@);
                }
                Some(&self.agents[i])
            },
            None => None,
        }
    }

    /// All agents, in registration order.
    pub fn list_all(&self) -> (r: &Vec<Agent>)
        ensures
            r@ == self.agents@,
    {
        &self.agents
    }

    /// Marks the agent as seen now.
    pub fn update_last_seen(&mut self, id: &str, now: i64)
        requires
            old(self).wf(),
        ensures
            final(self).wf(),
            match old(self).spec_get(id@) {
                Some(_) => {
                    let i = find_agent(old(self).agents@, id@);
                    final(self).agents@ == old(self).agents@.update(
                        i,
                        Agent { last_seen: now, ..old(self).agents@[i] },
                    )
                },
                None => *final(self) == *old(self),
            },
    {
        match self.find(id) {
            Some(i) => {
                proof {
                    lemma_find_agent(self.agents@, id@);
                }
                let a = &mut self.agents;
                let elem = &mut a[i];
                elem.last_seen = now;
                proof {
                    lemma_update_keeps_ids(old(self).agents@, self.agents@, i as int);
                    assert(self.agents@ =~= old(self).agents@.update(
                        i as int,
                        Agent { last_seen: now, ..old(self).agents@[i as int] },
                    ));
                }
            },
            None => {},
        }
    }

    /// Replaces the agent's configurations and marks it seen.
    pub fn update_config(&mut self, id: &str, config: Vec<AgentConfig>, now: i64)
        requires
            old(self).wf(),
        ensures
            final(self).wf(),
            match old(self).spec_get(id@) {
                Some(_) => {
                    let i = find_agent(old(self).agents@, id@);
                    final(self).agents@ == old(self).agents@.update(
                        i,
                        Agent { config: Some(config), last_seen: now, ..old(self).agents@[i] },
                    )
                },
                None => *final(self) == *old(self),
            },
    {
        match self.find(id) {
            Some(i) => {
                proof {
                    lemma_find_agent(self.agents@, id@);
                }
                let a = &mut self.agents;
                let elem = &mut a[i];
                elem.config = Some(config);
                elem.last_seen = now;
                proof {
                    lemma_update_keeps_ids(old(self).agents@, self.agents@, i as int);
                    assert(self.agents@ =~= old(self).agents@.update(
                        i as int,
                        Agent {
                            config: self.agents@[i as int].config,
                            last_seen: now,
                            ..old(self).agents@[i as int]
                        },
                    ));
                }
            },
            None => {},
        }
    }

    /// Replaces the agent's health record and marks it seen.
    pub fn update_health(&mut self, id: &str, health: HealthStatus, now: i64)
        requires
            old(self).wf(),
        ensures
            final(self).wf(),
            match old(self).spec_get(id@) {
                Some(_) => {
                    let i = find_agent(old(self).agents@, id@);
                    final(self).agents@ == old(self).agents@.update(
                        i,
                        Agent { health: Some(health), last_seen: now, ..old(self).agents@[i] },
                    )
                },
                None => *final(self) == *old(self),
            },
    {
        match self.find(id) {
            Some(i) => {
                proof {
                    lemma_find_agent(self.agents@, id@);
                }
                let a = &mut self.agents;
                let elem = &mut a[i];
                elem.health = Some(health);
                elem.last_seen = now;
                proof {
                    lemma_update_keeps_ids(old(self).agents@, self.agents@, i as int);
                    assert(self.agents@ =~= old(self).agents@.update(
                        i as int,
                        Agent {
                            health: self.agents@[i as int].health,
                            last_seen: now,
                            ..old(self).agents@[i as int]
                        },
                    ));
                }
            },
            None => {},
        }
    }

    /// Removes the agent under the given id, saying whether one was there.
    pub fn remove_agent(&mut self, id: &str) -> (r: bool)
        requires
            old(self).wf(),
        ensures
            final(self).wf(),
            r <==> old(self).spec_get(id@) is Some,
            match old(self).spec_get(id@) {
                Some(_) => {
                    let i = find_agent(old(self).agents@, id@);
                    final(self).agents@ == old(self).agents@.remove(i)
                },
                None => *final(self) == *old(self),
            },
    {
        match self.find(id) {
            Some(i) => {
                proof {
                    lemma_find_agent(self.agents@, id@);
                }
                self.agents.remove(i);
                proof {
                    assert forall|x: int, y: int|
                        0 <= x < y < self.agents@.len() implies (#[trigger] self.agents@[x]).id@
                        != (#[trigger] self.agents@[y]).id@ by {
                        let ox: int = if x < i {
                            x
                        } else {
                            x + 1
                        };
                        let oy: int = if y < i {
                            y
                        } else {
                            y + 1
                        };
                        assert(self.agents@[x] == old(self).agents@[ox]);
                        assert(self.agents@[y] == old(self).agents@[oy]);
                    }
                }
                true
            },
            None => false,
        }
    }

    /// Sweeps out agents not seen for longer than `max_age`, handing back
    /// the removed ids in registration order.
    pub fn remove_stale_agents(&mut self, max_age: i64, now: i64) -> (r: Vec<String>)
        requires
            old(self).wf(),
            now >= 0,
            max_age >= 0,
        ensures
            final(self).wf(),
            final(self).agents@ == old(self).agents@.filter(
                |a: Agent| now - a.last_seen <= max_age,
            ),
            r@.map_values(|s: String| s@) == old(self).agents@.filter(
                |a: Agent| now - a.last_seen > max_age,
            ).map_values(|a: Agent| a.id@),
    {
        let ghost orig = self.agents@;
        let ghost keep = |a: Agent| now - a.last_seen <= max_age;
        let ghost stale = |a: Agent| now - a.last_seen > max_age;
        let mut removed: Vec<String> = Vec::new();
        let mut i: usize = 0;
        let ghost mut k: int = 0;
        proof {
            reveal(Seq::filter);
            assert(orig.take(0).filter(keep) =~= Seq::<Agent>::empty());
            assert(orig.take(0).filter(stale) =~= Seq::<Agent>::empty());
            assert(removed@.map_values(|s: String| s@) =~= orig.take(0).filter(stale).map_values(
                |a: Agent| a.id@,
            ));
            assert(orig.skip(0) =~= orig);
            assert(self.agents@ =~= orig.take(0).filter(keep) + orig.skip(0));
        }
        while i < self.agents.len()
            invariant
                0 <= k <= orig.len(),
                now >= 0,
                max_age >= 0,
                old(self).wf(),
                self.agents@ == orig.take(k).filter(keep) + orig.skip(k),
                i == orig.take(k).filter(keep).len(),
                i <= self.agents@.len(),
                keep == (|a: Agent| now - a.last_seen <= max_age),
                stale == (|a: Agent| now - a.last_seen > max_age),
                removed@.map_values(|s: String| s@) == orig.take(k).filter(stale).map_values(
                    |a: Agent| a.id@,
                ),
            decreases self.agents@.len() - i,
        {
            proof {
                orig.take(k).lemma_filter_len(keep);
                assert(orig.skip(k).len() == orig.len() - k);
                assert(k < orig.len());
                assert(self.agents@[i as int] == orig.skip(k)[0]);
                assert(orig.skip(k)[0] == orig[k]);
                reveal(Seq::filter);
                assert(orig.take(k + 1).drop_last() =~= orig.take(k));
                assert(orig.take(k + 1).last() == orig[k]);
            }
            let threshold = now - max_age;
            let is_stale = self.agents[i].last_seen < threshold;
            if is_stale {
                proof {
                    assert(stale(orig[k]));
                }
                let a = self.agents.remove(i);
                let ghost rem_before = removed@;
                let ghost aid = a.id;
                removed.push(a.id);
                proof {
                    reveal(Seq::filter);
                    assert(a == orig[k]);
                    assert(removed@ == rem_before.push(aid));
                    assert(orig.take(k + 1).filter(keep) =~= orig.take(k).filter(keep));
                    assert(orig.take(k + 1).filter(stale) =~= orig.take(k).filter(stale).push(
                        orig[k],
                    ));
                    assert(removed@.map_values(|s: String| s@) =~= rem_before.map_values(
                        |s: String| s@,
                    ).push(aid@));
                    assert(orig.take(k + 1).filter(stale).map_values(|a: Agent| a.id@)
                        =~= orig.take(k).filter(stale).map_values(|a: Agent| a.id@).push(
                        orig[k].id@,
                    ));
                    assert(self.agents@ =~= orig.take(k + 1).filter(keep) + orig.skip(k + 1));
                    assert(removed@.map_values(|s: String| s@) =~= orig.take(k + 1).filter(
                        stale,
                    ).map_values(|a: Agent| a.id@));
                }
            } else {
                i += 1;
                proof {
                    reveal(Seq::filter);
                    assert(keep(orig[k]));
                    assert(orig.take(k + 1).filter(keep) =~= orig.take(k).filter(keep).push(
                        orig[k],
                    ));
                    assert(orig.take(k + 1).filter(stale) =~= orig.take(k).filter(stale));
                    assert(self.agents@ =~= orig.take(k + 1).filter(keep) + orig.skip(k + 1));
                    assert(removed@.map_values(|s: String| s@) =~= orig.take(k + 1).filter(
                        stale,
                    ).map_values(|a: Agent| a.id@));
                }
            }
            proof {
                k = k + 1;
            }
        }
        proof {
            orig.take(k).lemma_filter_len(keep);
            assert(orig.skip(k).len() == orig.len() - k);
            assert(k == orig.len());
            assert(orig.take(k) =~= orig);
            assert(orig.skip(k) =~= Seq::<Agent>::empty());
            assert(self.agents@ =~= orig.filter(keep));
            lemma_filter_wf(orig, keep);
        }
        removed
    }
}

/// Updating one entry without touching its id keeps the ids unique.
proof fn lemma_update_keeps_ids(before: Seq<Agent>, after: Seq<Agent>, i: int)
    requires
        0 <= i < before.len(),
        after.len() == before.len(),
        forall|k: int| 0 <= k < before.len() ==> (#[trigger] after[k]).id@ == before[k].id@,
        forall|x: int, y: int|
            0 <= x < y < before.len() ==> (#[trigger] before[x]).id@ != (#[trigger] before[y]).id@,
    ensures
        forall|x: int, y: int|
            0 <= x < y < after.len() ==> (#[trigger] after[x]).id@ != (#[trigger] after[y]).id@,
{
}

/// A subsequence of agents with unique ids keeps them unique.
proof fn lemma_filter_wf(agents: Seq<Agent>, pred: spec_fn(Agent) -> bool)
    requires
        forall|x: int, y: int|
            0 <= x < y < agents.len() ==> (#[trigger] agents[x]).id@ != (#[trigger] agents[y]).id@,
    ensures
        forall|x: int, y: int|
            0 <= x < y < agents.filter(pred).len() ==> (#[trigger] agents.filter(pred)[x]).id@ != (
            #[trigger] agents.filter(pred)[y]).id@,
    decreases agents.len(),
{
    reveal(Seq::filter);
    if agents.len() > 0 {
        let d = agents.drop_last();
        lemma_filter_wf(d, pred);
        let f = agents.filter(pred);
        let fd = d.filter(pred);
        agents.lemma_filter_len(pred);
        d.lemma_filter_len(pred);
        assert forall|x: int, y: int| 0 <= x < y < f.len() implies (#[trigger] f[x]).id@ != (
        #[trigger] f[y]).id@ by {
            if pred(agents.last()) {
                if y < f.len() - 1 {
                    assert(f[x] == fd[x] && f[y] == fd[y]);
                } else {
                    assert(f[y] == agents.last());
                    assert(f[x] == fd[x]);
                    lemma_filter_elem(d, pred, x);
                    let ox = choose|ox: int| 0 <= ox < d.len() && d[ox] == d.filter(pred)[x];
                    assert(agents[ox] == d[ox]);
                    assert(agents[ox].id@ != agents.last().id@);
                }
            } else {
                assert(f[x] == fd[x] && f[y] == fd[y]);
            }
        }
    }
}

/// Every element the filter keeps occurs in the sequence it was taken
/// from.
proof fn lemma_filter_elem(s: Seq<Agent>, pred: spec_fn(Agent) -> bool, x: int)
    requires
        0 <= x < s.filter(pred).len(),
    ensures
        exists|ox: int| 0 <= ox < s.len() && s[ox] == s.filter(pred)[x],
    decreases s.len(),
{
    reveal(Seq::filter);
    if s.len() > 0 {
        let d = s.drop_last();
        let fd = d.filter(pred);
        if pred(s.last()) {
            if x < fd.len() {
                lemma_filter_elem(d, pred, x);
                let ox = choose|ox: int| 0 <= ox < d.len() && d[ox] == fd[x];
                assert(s[ox] == d[ox]);
                assert(s.filter(pred)[x] == fd[x]);
            } else {
                assert(s.filter(pred)[x] == s.last());
                assert(s[s.len() - 1] == s.last());
            }
        } else {
            lemma_filter_elem(d, pred, x);
            let ox = choose|ox: int| 0 <= ox < d.len() && d[ox] == fd[x];
            assert(s[ox] == d[ox]);
            assert(s.filter(pred)[x] == fd[x]);
        }
    }
}

/// Whether two strings spell the same characters.
pub fn str_eq(a: &str, b: &str) -> (r: bool)
    ensures
        r <==> a@ == b@,
{
    let sa = a.to_owned();
    let sb = b.to_owned();
    sa == sb
}

} // verus!
