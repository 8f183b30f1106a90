//! The submission coordinator and the decision cores of the HTTP
//! handlers: validation, prefix checks, quota admission, tracking-row
//! creation, batching, and the routing headers each batch carries.
use crate::agent::{Agent, AgentConfig, AgentStore};
use crate::database::{
    clamp_u32, spec_today_start, sum_expected, usage_rows, Database, MeasurementStatus,
    MeasurementTracking,
};
use crate::ip::{ip_text, ip_to_string, IpAddress};
use crate::prefix::spec_validate_user_ipv6;
use crate::probe::{first_invalid, spec_records, ProbeValue};
use crate::text::{chars_of_bytes, hex_digit, hex_val, is_hex_digit, split_on, split_str};
use crate::user::spec_user_hash;
use vstd::prelude::*;
use vstd::string::StringSliceAdditionalSpecFns;

verus! {

/// A structured HTTP-level failure: the status and the envelope message.
#[derive(Debug)]
pub struct ApiError {
    pub status: u16,
    pub message: String,
}

/// One agent a submission addresses: its id and the source address probes
/// should carry from it.
#[derive(Debug)]
pub struct AgentMetadata {
    pub id: String,
    pub ip_address: Option<IpAddress>,
}

impl Clone for AgentMetadata {
    fn clone(&self) -> (r: Self)
        ensures
            r == *self,
    {
        AgentMetadata { id: self.id.clone(), ip_address: self.ip_address }
    }
}

/// A probe submission: the agents to fan out to and the probes.
#[derive(Debug)]
pub struct SubmitProbesRequest {
    pub metadata: Vec<AgentMetadata>,
    pub probes: Vec<ProbeValue>,
}

/// What a submission comes back with.
#[derive(Debug)]
pub struct SubmitProbesResponse {
    pub id: String,
    pub probes: usize,
    pub agents: Vec<AgentMetadata>,
}

// ---------------------------------------------------------------------------
// Measurement id text
// ---------------------------------------------------------------------------
/// Fixed-width lowercase hex.
pub open spec fn hex_fixed(v: int, digits: int) -> Seq<char>
    decreases digits,
{
    if digits <= 0 {
        Seq::empty()
    } else {
        hex_fixed(v / 16, digits - 1) + seq![hex_digit(v % 16)]
    }
}

/// The canonical hyphenated text of a 128-bit measurement id.
pub open spec fn spec_uuid_text(id: u128) -> Seq<char> {
    hex_fixed((id >> 96u128) as int, 8) + seq!['-'] + hex_fixed(((id >> 80u128) & 0xffff) as int, 4)
        + seq!['-'] + hex_fixed(((id >> 64u128) & 0xffff) as int, 4) + seq!['-'] + hex_fixed(
        ((id >> 48u128) & 0xffff) as int,
        4,
    ) + seq!['-'] + hex_fixed((id & 0xffff_ffff_ffff) as int, 12)
}

fn push_hex_fixed(out: &mut Vec<u8>, v: u128, digits: u32)
    requires
        forall|i: int| 0 <= i < old(out)@.len() ==> (#[trigger] old(out)@[i]) < 128,
    ensures
        forall|i: int| 0 <= i < final(out)@.len() ==> (#[trigger] final(out)@[i]) < 128,
        chars_of_bytes(final(out)@) == chars_of_bytes(old(out)@) + hex_fixed(
            v as int,
            digits as int,
        ),
    decreases digits,
{
    if digits == 0 {
        proof {
            assert(chars_of_bytes(out@) =~= chars_of_bytes(out@) + hex_fixed(v as int, 0));
        }
        return ;
    }
    push_hex_fixed(out, v / 16, digits - 1);
    let ghost mid = out@;
    let d: u8 = (v % 16) as u8;
    let b: u8 = if d < 10 {
        48 + d
    } else {
        87 + d
    };
    out.push(b);
    proof {
        crate::text::lemma_chars_push(mid, b);
        assert(b as char == hex_digit(v as int % 16));
        assert(chars_of_bytes(out@) =~= chars_of_bytes(old(out)@) + hex_fixed(
            v as int,
            digits as int,
        ));
    }
}

/// The canonical text of a measurement id.
pub fn uuid_text(id: u128) -> (r: String)
    ensures
        r@ == spec_uuid_text(id),
{
    let mut out: Vec<u8> = Vec::new();
    push_hex_fixed(&mut out, id >> 96, 8);
    let ghost s1 = out@;
    out.push(45);
    proof {
        crate::text::lemma_chars_push(s1, 45);
    }
    push_hex_fixed(&mut out, (id >> 80) & 0xffff, 4);
    let ghost s2 = out@;
    out.push(45);
    proof {
        crate::text::lemma_chars_push(s2, 45);
    }
    push_hex_fixed(&mut out, (id >> 64) & 0xffff, 4);
    let ghost s3 = out@;
    out.push(45);
    proof {
        crate::text::lemma_chars_push(s3, 45);
    }
    push_hex_fixed(&mut out, (id >> 48) & 0xffff, 4);
    let ghost s4 = out@;
    out.push(45);
    proof {
        crate::text::lemma_chars_push(s4, 45);
    }
    push_hex_fixed(&mut out, id & 0xffff_ffff_ffff, 12);
    proof {
        assert(chars_of_bytes(out@) =~= spec_uuid_text(id));
    }
    crate::text::ascii_string(out)
}

/// The value of a lowercase-or-uppercase hex digit string.
pub open spec fn hex_seq_val(s: Seq<char>) -> int
    decreases s.len(),
{
    if s.len() == 0 {
        0
    } else {
        hex_seq_val(s.drop_last()) * 16 + hex_val(s.last())
    }
}

pub open spec fn all_hex(s: Seq<char>) -> bool {
    forall|i: int| 0 <= i < s.len() ==> is_hex_digit(#[trigger] s[i])
}

/// The measurement id a canonical hyphenated text denotes.
pub open spec fn spec_parse_uuid(s: Seq<char>) -> Option<u128> {
    if crate::text::all_ascii(s) {
        let p = split_on(s, '-');
        if p.len() == 5 && p[0].len() == 8 && p[1].len() == 4 && p[2].len() == 4 && p[3].len() == 4
            && p[4].len() == 12 && all_hex(p[0]) && all_hex(p[1]) && all_hex(p[2]) && all_hex(p[3])
            && all_hex(p[4]) {
            Some(
                (hex_seq_val(p[0]) * 0x1_0000_0000_0000_0000_0000_0000 + hex_seq_val(p[1])
                    * 0x1_0000_0000_0000_0000_0000 + hex_seq_val(p[2]) * 0x1_0000_0000_0000_0000
                    + hex_seq_val(p[3]) * 0x1_0000_0000_0000 + hex_seq_val(p[4])) as u128,
            )
        } else {
            None
        }
    } else {
        None
    }
}

proof fn lemma_hex_seq_val_bound(s: Seq<char>)
    requires
        all_hex(s),
    ensures
        0 <= hex_seq_val(s),
        hex_seq_val(s) < vstd::arithmetic::power2::pow2((4 * s.len()) as nat),
        s.len() == 12 ==> hex_seq_val(s) < 0x1_0000_0000_0000,
        s.len() == 8 ==> hex_seq_val(s) < 0x1_0000_0000,
        s.len() == 4 ==> hex_seq_val(s) < 0x1_0000,
        s.len() <= 12 ==> hex_seq_val(s) < 0x1_0000_0000_0000,
    decreases s.len(),
{
    vstd::arithmetic::power2::lemma_pow2_pos((4 * s.len()) as nat);
    vstd::arithmetic::power2::lemma2_to64();
    vstd::arithmetic::power2::lemma2_to64_rest();
    if s.len() > 0 {
        let d = s.drop_last();
        assert forall|i: int| 0 <= i < d.len() implies is_hex_digit(#[trigger] d[i]) by {
            assert(d[i] == s[i]);
        }
        lemma_hex_seq_val_bound(d);
        assert(is_hex_digit(s.last()));
        assert(0 <= hex_val(s.last()) <= 15);
        vstd::arithmetic::power2::lemma_pow2_adds((4 * (s.len() - 1)) as nat, 4);
    }
    if s.len() <= 12 && s.len() > 0 {
        if 4 * s.len() < 48 {
            vstd::arithmetic::power2::lemma_pow2_strictly_increases((4 * s.len()) as nat, 48);
        }
    }
}

/// One hex part of a uuid, from its ASCII bytes.
fn parse_hex_part(seg: &Vec<u8>) -> (r: Option<u64>)
    requires
        forall|j: int| 0 <= j < seg@.len() ==> (#[trigger] seg@[j]) < 128,
        seg@.len() <= 12,
    ensures
        r is Some <==> all_hex(chars_of_bytes(seg@)),
        r is Some ==> r->0 == hex_seq_val(chars_of_bytes(seg@)),
{
    let ghost o = chars_of_bytes(seg@);
    proof {
        assert(o.len() == seg@.len());
        assert(o.take(0) =~= Seq::<char>::empty());
    }
    let mut v: u64 = 0;
    let mut j: usize = 0;
    while j < seg.len()
        invariant
            seg@.len() <= 12,
            j <= seg@.len(),
            forall|i: int| 0 <= i < seg@.len() ==> (#[trigger] seg@[i]) < 128,
            o == chars_of_bytes(seg@),
            forall|i: int| 0 <= i < j ==> is_hex_digit(#[trigger] o[i]),
            v == hex_seq_val(o.take(j as int)),
            v < 0x1_0000_0000_0000,
        decreases seg@.len() - j,
    {
        proof {
            assert(o[j as int] == seg@[j as int] as char);
            assert(o.take(j + 1).drop_last() =~= o.take(j as int));
            assert(o.take(j + 1).last() == o[j as int]);
        }
        let b = seg[j];
        let d: u64 = if b >= 48 && b <= 57 {
            (b - 48) as u64
        } else if b >= 97 && b <= 102 {
            (b - 97 + 10) as u64
        } else if b >= 65 && b <= 70 {
            (b - 65 + 10) as u64
        } else {
            proof {
                assert(!is_hex_digit(o[j as int]));
            }
            return None;
        };
        proof {
            assert(is_hex_digit(o[j as int]));
            assert(d == hex_val(o[j as int]));
            assert forall|i: int| 0 <= i < j + 1 implies is_hex_digit(#[trigger] o.take(j + 1)[i]) by {
                assert(o.take(j + 1)[i] == o[i]);
            }
            lemma_hex_seq_val_bound(o.take(j + 1));
        }
        v = v * 16 + d;
        j += 1;
    }
    proof {
        assert(o.take(o.len() as int) =~= o);
    }
    Some(v)
}

/// The measurement id denoted by canonical hyphenated text.
pub fn parse_uuid(s: &str) -> (r: Option<u128>)
    ensures
        r == spec_parse_uuid(s@),
{
    if !s.is_ascii() {
        proof {
            if crate::text::all_ascii(s@) {
                assert forall|i: int| 0 <= i < s@.len() implies '\0' <= #[trigger] s@[i]
                    <= '\u{7f}' by {
                    assert(crate::text::char_lt_128(s@[i]));
                }
            }
        }
        return None;
    }
    proof {
        assert forall|i: int| 0 <= i < s@.len() implies crate::text::char_lt_128(
            #[trigger] s@[i],
        ) by {
            assert('\0' <= s@[i] <= '\u{7f}');
        }
    }
    let parts = split_str(s, 45);
    let ghost p = split_on(s@, '-');
    proof {
        assert(parts@.map_values(|seg: Vec<u8>| chars_of_bytes(seg@)).len() == parts@.len());
    }
    if parts.len() != 5 {
        return None;
    }
    proof {
        assert(forall|k: int| 0 <= k < 5 ==> p[k] == chars_of_bytes((#[trigger] parts@[k])@));
        assert(forall|k: int| 0 <= k < 5 ==> (#[trigger] p[k]).len() == parts@[k]@.len());
    }
    if parts[0].len() != 8 || parts[1].len() != 4 || parts[2].len() != 4 || parts[3].len() != 4
        || parts[4].len() != 12 {
        return None;
    }
    let a = parse_hex_part(&parts[0]);
    let b = parse_hex_part(&parts[1]);
    let c = parse_hex_part(&parts[2]);
    let d = parse_hex_part(&parts[3]);
    let e = parse_hex_part(&parts[4]);
    match (a, b, c, d, e) {
        (Some(a), Some(b), Some(c), Some(d), Some(e)) => {
            proof {
                lemma_hex_seq_val_bound(p[0]);
                lemma_hex_seq_val_bound(p[1]);
                lemma_hex_seq_val_bound(p[2]);
                lemma_hex_seq_val_bound(p[3]);
                lemma_hex_seq_val_bound(p[4]);
            }
            Some(
                (a as u128) * 0x1_0000_0000_0000_0000_0000_0000 + (b as u128)
                    * 0x1_0000_0000_0000_0000_0000 + (c as u128) * 0x1_0000_0000_0000_0000 + (
                d as u128) * 0x1_0000_0000_0000 + (e as u128),
            )
        },
        _ => None,
    }
}

// ---------------------------------------------------------------------------
// Routing headers
// ---------------------------------------------------------------------------
/// The JSON value each batch carries per agent: the agent's source
/// address, the measurement id, and whether this is the final batch.
pub open spec fn spec_header_json(src_ip: Seq<char>, uuid: Seq<char>, last: bool) -> Seq<char> {
    "{\"src_ip\":\""@ + src_ip + "\",\"measurement_id\":\""@ + uuid
        + "\",\"end_of_measurement\":"@ + (if last {
        "true"@
    } else {
        "false"@
    }) + "}"@
}

/// Builds the per-agent header value for one batch.
pub fn header_json(src_ip: &str, uuid: &str, last: bool) -> (r: String)
    ensures
        r@ == spec_header_json(src_ip@, uuid@, last),
{
    let mut m = String::from_str("{\"src_ip\":\"");
    m.append(src_ip);
    m.append("\",\"measurement_id\":\"");
    m.append(uuid);
    m.append("\",\"end_of_measurement\":");
    if last {
        m.append("true");
    } else {
        m.append("false");
    }
    m.append("}");
    m
}

// ---------------------------------------------------------------------------
// The submission pipeline
// ---------------------------------------------------------------------------
/// Whether the registry would assign this agent: it exists and its last
/// health report says healthy.
pub open spec fn spec_assigned(store: AgentStore, m: AgentMetadata) -> bool {
    match store.spec_get(m.id@) {
        Some(a) => a.health matches Some(h) && h.healthy,
        None => false,
    }
}

/// The metadata entries the registry assigns, in request order.
pub open spec fn spec_assigned_list(store: AgentStore, md: Seq<AgentMetadata>) -> Seq<AgentMetadata>
    decreases md.len(),
{
    if md.len() == 0 {
        Seq::empty()
    } else {
        spec_assigned_list(store, md.drop_last()) + (if spec_assigned(store, md.last()) {
            seq![md.last()]
        } else {
            Seq::empty()
        })
    }
}

pub proof fn lemma_assigned_len(store: AgentStore, md: Seq<AgentMetadata>)
    ensures
        spec_assigned_list(store, md).len() <= md.len(),
    decreases md.len(),
{
    if md.len() > 0 {
        lemma_assigned_len(store, md.drop_last());
    }
}

/// Index of the first metadata entry without a source address, or -1.
pub open spec fn first_missing_ip(md: Seq<AgentMetadata>) -> int
    decreases md.len(),
{
    if md.len() == 0 {
        -1
    } else if md[0].ip_address is None {
        0
    } else {
        let r = first_missing_ip(md.drop_first());
        if r < 0 {
            -1
        } else {
            r + 1
        }
    }
}

pub proof fn lemma_first_missing_ip(md: Seq<AgentMetadata>)
    ensures
        first_missing_ip(md) >= 0 ==> {
            &&& first_missing_ip(md) < md.len()
            &&& md[first_missing_ip(md)].ip_address is None
            &&& forall|j: int|
                0 <= j < first_missing_ip(md) ==> (#[trigger] md[j]).ip_address is Some
        },
        first_missing_ip(md) < 0 ==> forall|j: int|
            0 <= j < md.len() ==> (#[trigger] md[j]).ip_address is Some,
    decreases md.len(),
{
    if md.len() > 0 && !(md[0].ip_address is None) {
        let d = md.drop_first();
        lemma_first_missing_ip(d);
        if first_missing_ip(d) >= 0 {
            assert(md[first_missing_ip(md)] == d[first_missing_ip(d)]);
            assert forall|j: int| 0 <= j < first_missing_ip(md) implies (
            #[trigger] md[j]).ip_address is Some by {
                if j > 0 {
                    assert(d[j - 1] == md[j]);
                }
            }
        } else {
            assert forall|j: int| 0 <= j < md.len() implies (#[trigger] md[j]).ip_address is Some by {
                if j > 0 {
                    assert(d[j - 1] == md[j]);
                }
            }
        }
    }
}

/// Whether a metadata entry's source address passes the prefix policy: an
/// IPv6 address must lie within the user's sub-prefix under at least one of
/// the agent's configured prefixes; entries for unknown or unconfigured
/// agents, and IPv4 addresses, pass as they are.
pub open spec fn v6_ip_ok(store: AgentStore, m: AgentMetadata, tag: u32) -> bool {
    match m.ip_address {
        Some(IpAddress::V6(a)) => match store.spec_get(m.id@) {
            Some(agent) => match agent.config {
                Some(cfgs) => exists|j: int|
                    0 <= j < cfgs@.len() && ((#[trigger] cfgs@[j]).src_ipv6_prefix matches Some(p)
                        && spec_validate_user_ipv6(a, p@, tag)),
                None => true,
            },
            None => true,
        },
        _ => true,
    }
}

/// Index of the first metadata entry whose address fails the policy, or -1.
pub open spec fn first_bad_ip(md: Seq<AgentMetadata>, store: AgentStore, tag: u32) -> int
    decreases md.len(),
{
    if md.len() == 0 {
        -1
    } else if !v6_ip_ok(store, md[0], tag) {
        0
    } else {
        let r = first_bad_ip(md.drop_first(), store, tag);
        if r < 0 {
            -1
        } else {
            r + 1
        }
    }
}

pub proof fn lemma_first_bad_ip(md: Seq<AgentMetadata>, store: AgentStore, tag: u32)
    ensures
        first_bad_ip(md, store, tag) >= 0 ==> {
            &&& first_bad_ip(md, store, tag) < md.len()
            &&& !v6_ip_ok(store, md[first_bad_ip(md, store, tag)], tag)
            &&& forall|j: int|
                0 <= j < first_bad_ip(md, store, tag) ==> v6_ip_ok(store, #[trigger] md[j], tag)
        },
        first_bad_ip(md, store, tag) < 0 ==> forall|j: int|
            0 <= j < md.len() ==> v6_ip_ok(store, #[trigger] md[j], tag),
    decreases md.len(),
{
    if md.len() > 0 && v6_ip_ok(store, md[0], tag) {
        let d = md.drop_first();
        lemma_first_bad_ip(d, store, tag);
        if first_bad_ip(d, store, tag) >= 0 {
            assert(md[first_bad_ip(md, store, tag)] == d[first_bad_ip(d, store, tag)]);
            assert forall|j: int| 0 <= j < first_bad_ip(md, store, tag) implies v6_ip_ok(
                store,
                #[trigger] md[j],
                tag,
            ) by {
                if j > 0 {
                    assert(d[j - 1] == md[j]);
                }
            }
        } else {
            assert forall|j: int| 0 <= j < md.len() implies v6_ip_ok(store, #[trigger] md[j], tag) by {
                if j > 0 {
                    assert(d[j - 1] == md[j]);
                }
            }
        }
    }
}

/// Checks one metadata entry against the prefix policy.
fn check_v6_ip(store: &AgentStore, m: &AgentMetadata, tag: u32) -> (r: bool)
    ensures
        r == v6_ip_ok(*store, *m, tag),
{
    let a: u128 = match &m.ip_address {
        Some(IpAddress::V6(a)) => *a,
        _ => {
            return true;
        },
    };
    let agent = match store.get(m.id.as_str()) {
        Some(agent) => agent,
        None => {
            return true;
        },
    };
    let cfgs = match &agent.config {
        Some(cfgs) => cfgs,
        None => {
            return true;
        },
    };
    let ip = crate::prefix::Ipv6Address::from_bits(a);
    let mut j: usize = 0;
    while j < cfgs.len()
        invariant
            j <= cfgs@.len(),
            ip.bits == a,
            m.ip_address == Some(IpAddress::V6(a)),
            store.spec_get(m.id@) matches Some(ag) && (ag.config matches Some(c) && c@ == cfgs@),
            forall|k: int|
                0 <= k < j ==> !((#[trigger] cfgs@[k]).src_ipv6_prefix matches Some(p)
                    && spec_validate_user_ipv6(a, p@, tag)),
        decreases cfgs@.len() - j,
    {
        match &cfgs[j].src_ipv6_prefix {
            Some(p) => {
                if crate::prefix::validate_user_ipv6(&ip, p.as_str(), tag) {
                    proof {
                        assert(exists|jj: int|
                            0 <= jj < cfgs@.len() && ((#[trigger] cfgs@[jj]).src_ipv6_prefix matches Some(
                                q,
                            ) && spec_validate_user_ipv6(a, q@, tag))) by {
                            assert((cfgs@[j as int]).src_ipv6_prefix matches Some(q)
                                && spec_validate_user_ipv6(a, q@, tag));
                        }
                    }
                    return true;
                }
            },
            None => {},
        }
        j += 1;
    }
    false
}

/// What a verified submission hands the publisher: the minted measurement
/// id, the framed batches, the per-batch routing headers, and the response
/// body for the client.
#[derive(Debug)]
pub struct SubmissionOutcome {
    pub measurement_id: u128,
    pub measurement_id_text: String,
    pub batches: Vec<Vec<u8>>,
    pub headers: Vec<Vec<(String, String)>>,
    pub response: SubmitProbesResponse,
}

/// The byte budget one published batch may use.
pub const MAX_BATCH_BYTES: usize = 1000000;

/// Runs a probe submission up to the point of publishing: validates the
/// probes and the metadata, resolves the user's tag, enforces the prefix
/// policy and the daily quota, picks the healthy agents, mints the
/// measurement id, opens the tracking rows, and encodes the batches with
/// their routing headers. Publishing the batches is the caller's step; a
/// refusal creates no tracking row.
#[verifier::rlimit(100)]
pub fn submit_probes(
    db: &mut Database,
    registry: &AgentStore,
    auth_sub: &str,
    request: &SubmitProbesRequest,
    now: i64,
) -> (r: Result<SubmissionOutcome, ApiError>)
    requires
        old(db).wf(),
        registry.wf(),
        now >= 0,
        request.probes@.len() <= 0x7fffffff,
        request.probes@.len() * request.metadata@.len() <= usize::MAX,
    ensures
        final(db).wf(),
        final(db).user_limits == old(db).user_limits,
        final(db).records == old(db).records,
        old(db).user_id_mappings@.len() <= final(db).user_id_mappings@.len() <= old(
            db,
        ).user_id_mappings@.len() + 1,
        final(db).user_id_mappings@.take(old(db).user_id_mappings@.len() as int) == old(
            db,
        ).user_id_mappings@,
        final(db).measurement_tracking@.take(old(db).measurement_tracking@.len() as int) == old(
            db,
        ).measurement_tracking@,
        ({
            let hash = spec_user_hash(auth_sub.spec_bytes());
            let md = request.metadata@;
            let ps = request.probes@;
            let admitted = clamp_u32(
                sum_expected(
                    usage_rows(
                        old(db).measurement_tracking@,
                        hash,
                        spec_today_start(now as int),
                        now as int,
                    ),
                ),
            ) + ps.len() <= old(db).spec_limit_of(hash);
            match r {
                Ok(out) => {
                    &&& ps.len() > 0
                    &&& first_invalid(ps) < 0
                    &&& first_missing_ip(md) < 0
                    &&& (final(db).spec_tag_of(hash) matches Some(tag) && first_bad_ip(
                        md,
                        *registry,
                        tag,
                    ) < 0)
                    &&& admitted
                    &&& out.response.id == out.measurement_id_text
                    &&& out.measurement_id_text@ == spec_uuid_text(out.measurement_id)
                    &&& out.response.agents@ == spec_assigned_list(*registry, md)
                    &&& out.response.agents@.len() > 0
                    &&& out.response.probes == ps.len() * out.response.agents@.len()
                    &&& out.batches@.map_values(|b: Vec<u8>| b@).flatten() == spec_records(
                        ps,
                    ).flatten()
                    &&& (forall|k: int|
                        0 <= k < out.batches@.len() ==> 0 < (#[trigger] out.batches@[k])@.len()
                            <= MAX_BATCH_BYTES)
                    &&& (forall|k: int|
                        0 <= k < out.batches@.len() - 1 ==> (#[trigger] out.batches@[k])@.len() + 48
                            > MAX_BATCH_BYTES)
                    &&& out.headers@.len() == out.batches@.len()
                    &&& (forall|b: int|
                        0 <= b < out.headers@.len() ==> (#[trigger] out.headers@[b])@.len()
                            == md.len())
                    &&& (forall|b: int, a: int|
                        0 <= b < out.headers@.len() && 0 <= a < md.len() ==> {
                            &&& (#[trigger] out.headers@[b]@[a]).0@ == md[a].id@
                            &&& out.headers@[b]@[a].1@ == spec_header_json(
                                ip_text(md[a].ip_address->0),
                                spec_uuid_text(out.measurement_id),
                                b == out.headers@.len() - 1,
                            )
                        })
                    &&& (forall|k: int|
                        old(db).measurement_tracking@.len() <= k < final(db).measurement_tracking@.len() ==> {
                            let row = #[trigger] final(db).measurement_tracking@[k];
                            &&& row.measurement_id == out.measurement_id
                            &&& row.user_hash@ == hash
                            &&& row.expected_probes == ps.len()
                            &&& row.sent_probes == 0
                            &&& !row.is_complete
                            &&& row.created_at == now
                            &&& row.updated_at == now
                        })
                    &&& final(db).measurement_tracking@.len() <= old(
                        db,
                    ).measurement_tracking@.len() + out.response.agents@.len()
                },
                Err(e) => {
                    &&& final(db).measurement_tracking == old(db).measurement_tracking
                    &&& if ps.len() == 0 {
                        e.status == 400 && e.message@ == "Probe list cannot be empty"@
                    } else if first_invalid(ps) >= 0 {
                        let i = first_invalid(ps);
                        &&& e.status == 400
                        &&& (crate::probe::spec_validate_msg(ps[i]) matches Some(m) && e.message@
                            == "Probe validation failed: "@ + "Probe at index "@
                            + crate::text::dec_text(i) + ": "@ + m)
                    } else if first_missing_ip(md) >= 0 {
                        e.status == 400 && e.message@ == "IP address is required for agent '"@
                            + md[first_missing_ip(md)].id@ + "'"@
                    } else {
                        &&& (e.status == 403 || e.status == 429 || e.status == 400 || e.status
                            == 500)
                        &&& (e.status == 403 ==> (final(db).spec_tag_of(hash) matches Some(tag)
                            && first_bad_ip(md, *registry, tag) >= 0 && (md[first_bad_ip(
                            md,
                            *registry,
                            tag,
                        )].ip_address matches Some(ip) && e.message@ == "IP address "@ + ip_text(ip)
                            + " is not within your allocated prefix"@)))
                        &&& (e.status == 429 ==> {
                            &&& !admitted
                            &&& (final(db).spec_tag_of(hash) matches Some(tag) && first_bad_ip(
                                md,
                                *registry,
                                tag,
                            ) < 0)
                            &&& e.message@ == "Daily probe limit exceeded"@
                        })
                        &&& (e.status == 400 ==> {
                            &&& spec_assigned_list(*registry, md).len() == 0
                            &&& admitted
                            &&& (final(db).spec_tag_of(hash) matches Some(tag) && first_bad_ip(
                                md,
                                *registry,
                                tag,
                            ) < 0)
                            &&& e.message@
                                == "No healthy agents found for the requested measurement"@
                        })
                        &&& (e.status == 500 ==> {
                            &&& *final(db) == *old(db)
                            &&& old(db).spec_tag_of(hash) is None
                            &&& old(db).spec_tag_taken(
                                crate::user::spec_deterministic_tag(hash),
                            )
                            &&& e.message@ == "Failed to get user ID: "@
                                + "Failed to generate unique user ID after 100 attempts"@
                        })
                    }
                },
            }
        }),
{
    let ghost md = request.metadata@;
    let ghost ps = request.probes@;
    // an empty probe list is refused outright
    if request.probes.len() == 0 {
        return Err(
            ApiError { status: 400, message: String::from_str("Probe list cannot be empty") },
        );
    }
    // every probe must be well formed
    match crate::probe::validate_probes(&request.probes) {
        Ok(_) => {},
        Err(err) => {
            let mut m = String::from_str("Probe validation failed: ");
            m.append(err.as_str());
            return Err(ApiError { status: 400, message: m });
        },
    }
    // every metadata entry must name a source address
    proof {
        lemma_first_missing_ip(md);
    }
    let mut mi: usize = 0;
    let mut missing: Option<usize> = None;
    while mi < request.metadata.len() && missing.is_none()
        invariant
            md == request.metadata@,
            mi <= md.len(),
            match missing {
                None => forall|j: int| 0 <= j < mi ==> (#[trigger] md[j]).ip_address is Some,
                Some(k) => first_missing_ip(md) == k && k < md.len(),
            },
        decreases md.len() - mi + (if missing.is_none() { 1int } else { 0int }),
    {
        if request.metadata[mi].ip_address.is_none() {
            proof {
                lemma_first_missing_ip_at(md, mi as int);
            }
            missing = Some(mi);
        } else {
            mi += 1;
        }
    }
    match missing {
        Some(k) => {
            let mut m = String::from_str("IP address is required for agent '");
            m.append(request.metadata[k].id.as_str());
            m.append("'");
            return Err(ApiError { status: 400, message: m });
        },
        None => {},
    }
    proof {
        lemma_first_missing_ip(md);
        if first_missing_ip(md) >= 0 {
            assert(md[first_missing_ip(md)].ip_address is Some);
        }
        assert(first_missing_ip(md) < 0);
    }
    // resolve the user's tag
    let user_tag = match crate::get_or_create_user_id(db, auth_sub) {
        Ok(t) => t,
        Err(e) => {
            let mut m = String::from_str("Failed to get user ID: ");
            m.append(e.as_str());
            return Err(ApiError { status: 500, message: m });
        },
    };
    // every IPv6 source address must fall inside the user's sub-prefix
    proof {
        lemma_first_bad_ip(md, *registry, user_tag);
    }
    let mut bi: usize = 0;
    let mut bad: Option<usize> = None;
    while bi < request.metadata.len() && bad.is_none()
        invariant
            md == request.metadata@,
            registry.wf(),
            bi <= md.len(),
            match bad {
                None => forall|j: int| 0 <= j < bi ==> v6_ip_ok(*registry, #[trigger] md[j], user_tag),
                Some(k) => first_bad_ip(md, *registry, user_tag) == k && k < md.len() && md[k as int].ip_address is Some,
            },
            forall|j: int| 0 <= j < md.len() ==> (#[trigger] md[j]).ip_address is Some,
        decreases md.len() - bi + (if bad.is_none() { 1int } else { 0int }),
    {
        if !check_v6_ip(registry, &request.metadata[bi], user_tag) {
            proof {
                lemma_first_bad_ip_at(md, *registry, user_tag, bi as int);
            }
            bad = Some(bi);
        } else {
            bi += 1;
        }
    }
    match bad {
        Some(k) => {
            let ip = match &request.metadata[k].ip_address {
                Some(ip) => ip,
                None => {
                    return Err(
                        ApiError {
                            status: 500,
                            message: String::from_str("Failed to check probe limit"),
                        },
                    );
                },
            };
            let ip_str = ip_to_string(ip);
            let mut m = String::from_str("IP address ");
            m.append(ip_str.as_str());
            m.append(" is not within your allocated prefix");
            return Err(ApiError { status: 403, message: m });
        },
        None => {
            proof {
                lemma_first_bad_ip(md, *registry, user_tag);
                if first_bad_ip(md, *registry, user_tag) >= 0 {
                    assert(v6_ip_ok(*registry, md[first_bad_ip(md, *registry, user_tag)], user_tag));
                }
            }
        },
    }
    // the daily quota must admit the batch
    let can = match db.can_user_submit_probes(auth_sub, request.probes.len() as u32, None, now) {
        Ok(b) => b,
        Err(_) => false,
    };
    if !can {
        return Err(
            ApiError { status: 429, message: String::from_str("Daily probe limit exceeded") },
        );
    }
    // mint the measurement id and pick the healthy agents
    let measurement_id = crate::wrappers::fresh_uuid();
    let mid_text = uuid_text(measurement_id);
    let mut assigned: Vec<AgentMetadata> = Vec::new();
    let mut ai: usize = 0;
    proof {
        assert(md.take(0) =~= Seq::<AgentMetadata>::empty());
        assert(assigned@ =~= spec_assigned_list(*registry, md.take(0)));
    }
    while ai < request.metadata.len()
        invariant
            md == request.metadata@,
            registry.wf(),
            ai <= md.len(),
            assigned@ == spec_assigned_list(*registry, md.take(ai as int)),
            assigned@.len() <= ai,
        decreases md.len() - ai,
    {
        let m = &request.metadata[ai];
        proof {
            assert(md.take(ai + 1).drop_last() =~= md.take(ai as int));
            assert(md.take(ai + 1).last() == md[ai as int]);
        }
        let healthy = match registry.get(m.id.as_str()) {
            Some(agent) => match &agent.health {
                Some(h) => h.healthy,
                None => false,
            },
            None => false,
        };
        if healthy {
            assigned.push(m.clone());
            proof {
                assert(assigned@ =~= spec_assigned_list(*registry, md.take(ai + 1)));
            }
        } else {
            proof {
                assert(assigned@ =~= spec_assigned_list(*registry, md.take(ai + 1)));
            }
        }
        ai += 1;
    }
    proof {
        assert(md.take(md.len() as int) =~= md);
    }
    if assigned.len() == 0 {
        return Err(
            ApiError {
                status: 400,
                message: String::from_str("No healthy agents found for the requested measurement"),
            },
        );
    }
    // encode and batch the probes
    let batches = match crate::probe::deserialize_probes_batch(&request.probes, MAX_BATCH_BYTES) {
        Ok(b) => b,
        Err(_) => {
            return Err(
                ApiError { status: 400, message: String::from_str("Failed to process probe data") },
            );
        },
    };
    // open the tracking rows; individual failures do not abort
    let user_hash = crate::user::hash_user_identifier(auth_sub);
    let ghost hs = user_hash@;
    let ghost base = db.measurement_tracking@;
    let ghost maps_after = db.user_id_mappings;
    let ghost limits_after = db.user_limits;
    let ghost records_after = db.records;
    let expected = request.probes.len() as i32;
    let mut ti: usize = 0;
    while ti < assigned.len()
        invariant
            db.wf(),
            hs == user_hash@,
            ti <= assigned@.len(),
            expected >= 0,
            expected == request.probes@.len(),
            db.measurement_tracking@.take(base.len() as int) == base,
            db.measurement_tracking@.len() >= base.len(),
            db.measurement_tracking@.len() <= base.len() + ti,
            forall|k: int|
                base.len() <= k < db.measurement_tracking@.len() ==> {
                    let row = #[trigger] db.measurement_tracking@[k];
                    &&& row.measurement_id == measurement_id
                    &&& row.user_hash@ == hs
                    &&& row.expected_probes == expected
                    &&& row.sent_probes == 0
                    &&& !row.is_complete
                    &&& row.created_at == now
                    &&& row.updated_at == now
                },
            db.user_limits == limits_after,
            db.records == records_after,
            db.user_id_mappings == maps_after,
        decreases assigned@.len() - ti,
    {
        let ghost before = db.measurement_tracking@;
        let created = db.create_measurement_tracking(
            user_hash.as_str(),
            measurement_id,
            assigned[ti].id.as_str(),
            expected,
            now,
        );
        proof {
            match created {
                Ok(_) => {
                    assert(db.measurement_tracking@.drop_last() == before);
                    assert forall|k: int|
                        base.len() <= k < db.measurement_tracking@.len() - 1 implies #[trigger] db.measurement_tracking@[k] == before[k] by {
                        assert(db.measurement_tracking@.drop_last()[k] == db.measurement_tracking@[k]);
                    }
                    assert(db.measurement_tracking@.take(base.len() as int) =~= base);
                },
                Err(_) => {},
            }
        }
        ti += 1;
    }
    // the routing headers for each batch
    let mut headers: Vec<Vec<(String, String)>> = Vec::new();
    let total_batches = batches.len();
    let mut b: usize = 0;
    while b < total_batches
        invariant
            md == request.metadata@,
            headers@.len() == b,
            b <= total_batches,
            mid_text@ == spec_uuid_text(measurement_id),
            forall|j: int| 0 <= j < md.len() ==> (#[trigger] md[j]).ip_address is Some,
            forall|x: int|
                0 <= x < b ==> (#[trigger] headers@[x])@.len() == md.len(),
            forall|x: int, a: int|
                0 <= x < b && 0 <= a < md.len() ==> {
                    &&& (#[trigger] headers@[x]@[a]).0@ == md[a].id@
                    &&& headers@[x]@[a].1@ == spec_header_json(
                        ip_text(md[a].ip_address->0),
                        spec_uuid_text(measurement_id),
                        x == total_batches - 1,
                    )
                },
        decreases total_batches - b,
    {
        let is_last = b == total_batches - 1;
        let mut row: Vec<(String, String)> = Vec::new();
        let mut a: usize = 0;
        while a < request.metadata.len()
            invariant
                md == request.metadata@,
                a <= md.len(),
                row@.len() == a,
                mid_text@ == spec_uuid_text(measurement_id),
                forall|j: int| 0 <= j < md.len() ==> (#[trigger] md[j]).ip_address is Some,
                forall|j: int|
                    0 <= j < a ==> {
                        &&& (#[trigger] row@[j]).0@ == md[j].id@
                        &&& row@[j].1@ == spec_header_json(
                            ip_text(md[j].ip_address->0),
                            spec_uuid_text(measurement_id),
                            is_last,
                        )
                    },
            decreases md.len() - a,
        {
            let m = &request.metadata[a];
            let ip = match &m.ip_address {
                Some(ip) => ip,
                None => {
                    proof {
                        assert(md[a as int].ip_address is Some);
                    }
                    // every entry was checked to carry an address
                    a += 1;
                    continue ;
                },
            };
            let ip_str = ip_to_string(ip);
            let value = header_json(ip_str.as_str(), mid_text.as_str(), is_last);
            row.push((m.id.clone(), value));
            a += 1;
        }
        headers.push(row);
        b += 1;
    }
    proof {
        lemma_assigned_len(*registry, md);
        vstd::arithmetic::mul::lemma_mul_inequality(
            assigned@.len() as int,
            md.len() as int,
            ps.len() as int,
        );
        vstd::arithmetic::mul::lemma_mul_is_commutative(ps.len() as int, md.len() as int);
        vstd::arithmetic::mul::lemma_mul_is_commutative(ps.len() as int, assigned@.len() as int);
    }
    let probes_total = request.probes.len() * assigned.len();
    let response = SubmitProbesResponse {
        id: mid_text.clone(),
        probes: probes_total,
        agents: assigned,
    };
    Ok(
        SubmissionOutcome {
            measurement_id,
            measurement_id_text: mid_text,
            batches,
            headers,
            response,
        },
    )
}

// ---------------------------------------------------------------------------
// Handler cores
// ---------------------------------------------------------------------------
/// What the user-info endpoint reports.
#[derive(Debug)]
pub struct UserInfo {
    pub user_id: u32,
    pub submission_count: u32,
    pub last_submitted: Option<i64>,
    pub used: u32,
    pub limit: u32,
}

/// Resolves the user's tag and reports today's usage against the limit.
pub fn user_info_core(db: &mut Database, subject: &str, now: i64) -> (r: Result<
    UserInfo,
    ApiError,
>)
    requires
        old(db).wf(),
        now >= 0,
    ensures
        final(db).wf(),
        final(db).user_limits == old(db).user_limits,
        final(db).records == old(db).records,
        final(db).measurement_tracking == old(db).measurement_tracking,
        old(db).user_id_mappings@.len() <= final(db).user_id_mappings@.len() <= old(
            db,
        ).user_id_mappings@.len() + 1,
        final(db).user_id_mappings@.take(old(db).user_id_mappings@.len() as int) == old(
            db,
        ).user_id_mappings@,
        ({
            let hash = spec_user_hash(subject.spec_bytes());
            let f = usage_rows(
                old(db).measurement_tracking@,
                hash,
                spec_today_start(now as int),
                now as int,
            );
            match r {
                Ok(info) => {
                    &&& final(db).spec_tag_of(hash) == Some(info.user_id)
                    &&& info.submission_count == crate::database::count_distinct(f)
                    &&& info.used == clamp_u32(sum_expected(f))
                    &&& info.limit == old(db).spec_limit_of(hash)
                    &&& info.last_submitted == crate::database::max_updated(f)
                },
                Err(e) => {
                    &&& e.status == 500
                    &&& e.message@ == "Failed to process user identification"@
                    &&& *final(db) == *old(db)
                    &&& old(db).spec_tag_of(hash) is None
                    &&& old(db).spec_tag_taken(crate::user::spec_deterministic_tag(hash))
                },
            }
        }),
{
    let user_id = match crate::get_or_create_user_id(db, subject) {
        Ok(t) => t,
        Err(_) => {
            return Err(
                ApiError {
                    status: 500,
                    message: String::from_str("Failed to process user identification"),
                },
            );
        },
    };
    match db.get_user_usage_stats(subject, None, None, now) {
        Ok(stats) => Ok(
            UserInfo {
                user_id,
                submission_count: stats.submission_count,
                last_submitted: stats.last_submitted,
                used: stats.total_probes,
                limit: stats.limit,
            },
        ),
        Err(_) => Err(
            ApiError {
                status: 500,
                message: String::from_str("Failed to process user identification"),
            },
        ),
    }
}

/// One allocated sub-prefix under one agent prefix.
#[derive(Debug)]
pub struct PrefixPair {
    pub agent_prefix: String,
    pub user_prefix: String,
}

/// An agent and the user's sub-prefixes under it.
#[derive(Debug)]
pub struct AgentPrefixes {
    pub agent_id: String,
    pub prefixes: Vec<PrefixPair>,
}

/// The pairs a configuration list yields: each configured IPv6 prefix that
/// can host the user's allocation, with the allocated sub-prefix text.
pub open spec fn cfg_pairs(cfgs: Seq<AgentConfig>, tag: u32) -> Seq<(Seq<char>, Seq<char>)>
    decreases cfgs.len(),
{
    if cfgs.len() == 0 {
        Seq::empty()
    } else {
        cfg_pairs(cfgs.drop_last(), tag) + (match cfgs.last().src_ipv6_prefix {
            Some(p) => match crate::prefix::spec_calculate_user_prefix(p@, tag) {
                Some(t) => seq![(p@, t)],
                None => Seq::empty(),
            },
            None => Seq::empty(),
        })
    }
}

/// The report rows: every agent with at least one hosting prefix, in
/// registry order.
pub open spec fn prefix_report(agents: Seq<Agent>, tag: u32) -> Seq<
    (Seq<char>, Seq<(Seq<char>, Seq<char>)>),
>
    decreases agents.len(),
{
    if agents.len() == 0 {
        Seq::empty()
    } else {
        prefix_report(agents.drop_last(), tag) + (match agents.last().config {
            Some(cfgs) => if cfg_pairs(cfgs@, tag).len() > 0 {
                seq![(agents.last().id@, cfg_pairs(cfgs@, tag))]
            } else {
                Seq::empty()
            },
            None => Seq::empty(),
        })
    }
}

/// The view of one report entry.
pub open spec fn entry_view(e: AgentPrefixes) -> (Seq<char>, Seq<(Seq<char>, Seq<char>)>) {
    (e.agent_id@, e.prefixes@.map_values(|p: PrefixPair| (p.agent_prefix@, p.user_prefix@)))
}

/// The user's allocated sub-prefixes across every agent that hosts one.
pub fn user_prefixes_core(registry: &AgentStore, user_id: u32) -> (r: Vec<AgentPrefixes>)
    ensures
        r@.map_values(|e: AgentPrefixes| entry_view(e)) == prefix_report(
            registry.agents@,
            user_id,
        ),
{
    let ghost all = registry.agents@;
    let agents = registry.list_all();
    let mut out: Vec<AgentPrefixes> = Vec::new();
    let mut i: usize = 0;
    proof {
        assert(all.take(0) =~= Seq::<Agent>::empty());
        assert(out@.map_values(|e: AgentPrefixes| entry_view(e)) =~= prefix_report(
            all.take(0),
            user_id,
        ));
    }
    while i < agents.len()
        invariant
            all == registry.agents@,
            agents@ == all,
            i <= all.len(),
            out@.map_values(|e: AgentPrefixes| entry_view(e)) == prefix_report(
                all.take(i as int),
                user_id,
            ),
        decreases all.len() - i,
    {
        let a = &agents[i];
        proof {
            assert(all.take(i + 1).drop_last() =~= all.take(i as int));
            assert(all.take(i + 1).last() == all[i as int]);
        }
        match &a.config {
            Some(cfgs) => {
                let ghost cv = cfgs@;
                let mut pairs: Vec<PrefixPair> = Vec::new();
                let mut j: usize = 0;
                proof {
                    assert(cv.take(0) =~= Seq::<AgentConfig>::empty());
                    assert(pairs@.map_values(|p: PrefixPair| (p.agent_prefix@, p.user_prefix@))
                        =~= cfg_pairs(cv.take(0), user_id));
                }
                while j < cfgs.len()
                    invariant
                        cv == cfgs@,
                        j <= cv.len(),
                        pairs@.map_values(|p: PrefixPair| (p.agent_prefix@, p.user_prefix@))
                            == cfg_pairs(cv.take(j as int), user_id),
                    decreases cv.len() - j,
                {
                    proof {
                        assert(cv.take(j + 1).drop_last() =~= cv.take(j as int));
                        assert(cv.take(j + 1).last() == cv[j as int]);
                    }
                    match &cfgs[j].src_ipv6_prefix {
                        Some(p) => {
                            match crate::prefix::calculate_user_prefix(p.as_str(), user_id) {
                                Some(t) => {
                                    pairs.push(
                                        PrefixPair { agent_prefix: p.clone(), user_prefix: t },
                                    );
                                    proof {
                                        assert(pairs@.map_values(
                                            |p: PrefixPair| (p.agent_prefix@, p.user_prefix@),
                                        ) =~= cfg_pairs(cv.take(j + 1), user_id));
                                    }
                                },
                                None => {
                                    proof {
                                        assert(pairs@.map_values(
                                            |p: PrefixPair| (p.agent_prefix@, p.user_prefix@),
                                        ) =~= cfg_pairs(cv.take(j + 1), user_id));
                                    }
                                },
                            }
                        },
                        None => {
                            proof {
                                assert(pairs@.map_values(
                                    |p: PrefixPair| (p.agent_prefix@, p.user_prefix@),
                                ) =~= cfg_pairs(cv.take(j + 1), user_id));
                            }
                        },
                    }
                    j += 1;
                }
                proof {
                    assert(cv.take(cv.len() as int) =~= cv);
                }
                if pairs.len() > 0 {
                    out.push(AgentPrefixes { agent_id: a.id.clone(), prefixes: pairs });
                    proof {
                        assert(out@.map_values(|e: AgentPrefixes| entry_view(e)) =~= prefix_report(
                            all.take(i + 1),
                            user_id,
                        ));
                    }
                } else {
                    proof {
                        assert(out@.map_values(|e: AgentPrefixes| entry_view(e)) =~= prefix_report(
                            all.take(i + 1),
                            user_id,
                        ));
                    }
                }
            },
            None => {
                proof {
                    assert(out@.map_values(|e: AgentPrefixes| entry_view(e)) =~= prefix_report(
                        all.take(i + 1),
                        user_id,
                    ));
                }
            },
        }
        i += 1;
    }
    proof {
        assert(all.take(all.len() as int) =~= all);
    }
    out
}

/// Looks a measurement's status and per-agent rows up for a client.
pub fn measurement_status_core(db: &Database, measurement_id: &str, subject: &str) -> (r: Result<
    (MeasurementStatus, Vec<MeasurementTracking>),
    ApiError,
>)
    requires
        db.wf(),
    ensures
        ({
            let hash = spec_user_hash(subject.spec_bytes());
            match r {
                Ok((st, rows)) => {
                    &&& spec_parse_uuid(measurement_id@) matches Some(mid)
                    &&& rows@ == crate::database::sort_by_created(
                        crate::database::rows_for(db.measurement_tracking@, st.measurement_id, hash),
                    )
                    &&& crate::database::sorted_by_created(rows@)
                    &&& rows@.len() > 0
                    &&& Some(st.measurement_id) == spec_parse_uuid(measurement_id@)
                    &&& st.user_hash@ == hash
                    &&& st.total_agents == rows@.len()
                    &&& st.total_expected_probes == sum_expected(rows@)
                    &&& st.total_sent_probes == crate::database::sum_sent(rows@)
                    &&& st.completed_agents == crate::database::count_complete(rows@)
                    &&& st.measurement_complete == (crate::database::count_complete(rows@)
                        == rows@.len())
                },
                Err(e) => {
                    if spec_parse_uuid(measurement_id@) is None {
                        e.status == 400 && e.message@ == "Invalid measurement ID format"@
                    } else {
                        e.status == 404 && e.message@ == "Measurement not found"@
                            && crate::database::rows_for(
                            db.measurement_tracking@,
                            spec_parse_uuid(measurement_id@)->Some_0,
                            hash,
                        ).len() == 0
                    }
                },
            }
        }),
{
    let mid = match parse_uuid(measurement_id) {
        Some(m) => m,
        None => {
            return Err(
                ApiError { status: 400, message: String::from_str("Invalid measurement ID format") },
            );
        },
    };
    let user_hash = crate::user::hash_user_identifier(subject);
    let status = match db.get_measurement_status(mid, user_hash.as_str()) {
        Ok(Some(st)) => st,
        Ok(None) => {
            return Err(
                ApiError { status: 404, message: String::from_str("Measurement not found") },
            );
        },
        Err(_) => {
            return Err(
                ApiError { status: 404, message: String::from_str("Measurement not found") },
            );
        },
    };
    let rows = match db.get_measurement_tracking(mid, user_hash.as_str()) {
        Ok(rows) => rows,
        Err(_) => {
            return Err(
                ApiError { status: 404, message: String::from_str("Measurement not found") },
            );
        },
    };
    proof {
        crate::database::lemma_rows_for_wf(db.measurement_tracking@, mid, user_hash@);
        crate::database::lemma_sort_by_created(
            crate::database::rows_for(db.measurement_tracking@, mid, user_hash@),
        );
    }
    Ok((status, rows))
}

/// Applies an agent's progress report to its tracking row, resolving the
/// user from the row itself; completion never reverts.
pub fn update_measurement_status_core(
    db: &mut Database,
    agent_id: &str,
    measurement_id: &str,
    sent_probes: i32,
    is_complete: bool,
    now: i64,
) -> (r: Result<MeasurementTracking, ApiError>)
    requires
        old(db).wf(),
    ensures
        final(db).wf(),
        final(db).user_limits == old(db).user_limits,
        final(db).records == old(db).records,
        final(db).user_id_mappings == old(db).user_id_mappings,
        match r {
            Ok(row) => {
                &&& spec_parse_uuid(measurement_id@) matches Some(mid)
                &&& sent_probes >= 0
                &&& ({
                    let i = crate::database::find_row_agent(
                        old(db).measurement_tracking@,
                        spec_parse_uuid(measurement_id@)->Some_0,
                        agent_id@,
                    );
                    &&& i >= 0
                    &&& row.sent_probes == sent_probes
                    &&& row.is_complete == (old(db).measurement_tracking@[i].is_complete
                        || is_complete)
                    &&& row.updated_at == now
                    &&& row.expected_probes == old(db).measurement_tracking@[i].expected_probes
                    &&& final(db).measurement_tracking@ == old(db).measurement_tracking@.update(
                        i,
                        row,
                    )
                })
            },
            Err(e) => {
                &&& final(db).measurement_tracking == old(db).measurement_tracking
                &&& if spec_parse_uuid(measurement_id@) is None {
                    e.status == 400 && e.message@ == "Invalid measurement ID format"@
                } else if sent_probes < 0 {
                    e.status == 400 && e.message@ == "Invalid sent probes count"@
                } else {
                    e.status == 404 && e.message@
                        == "Measurement tracking entry not found for this agent"@
                        && crate::database::find_row_agent(
                        old(db).measurement_tracking@,
                        spec_parse_uuid(measurement_id@)->Some_0,
                        agent_id@,
                    ) < 0
                }
            },
        },
{
    let mid = match parse_uuid(measurement_id) {
        Some(m) => m,
        None => {
            return Err(
                ApiError { status: 400, message: String::from_str("Invalid measurement ID format") },
            );
        },
    };
    if sent_probes < 0 {
        return Err(
            ApiError { status: 400, message: String::from_str("Invalid sent probes count") },
        );
    }
    let entry = match db.get_measurement_tracking_by_agent(mid, agent_id) {
        Ok(Some(entry)) => entry,
        _ => {
            return Err(
                ApiError {
                    status: 404,
                    message: String::from_str("Measurement tracking entry not found for this agent"),
                },
            );
        },
    };
    proof {
        crate::database::lemma_find_row_agent(db.measurement_tracking@, mid, agent_id@);
    }
    match db.update_measurement_probe_count(
        mid,
        entry.user_hash.as_str(),
        agent_id,
        sent_probes,
        is_complete,
        now,
    ) {
        Ok(row) => {
            proof {
                let i = crate::database::find_row_agent(
                    old(db).measurement_tracking@,
                    mid,
                    agent_id@,
                );
                let f = crate::database::find_row(
                    old(db).measurement_tracking@,
                    mid,
                    entry.user_hash@,
                    agent_id@,
                );
                crate::database::lemma_find_row(
                    old(db).measurement_tracking@,
                    mid,
                    entry.user_hash@,
                    agent_id@,
                );
                if f != i {
                    assert(old(db).wf());
                    assert(crate::database::row_matches(
                        old(db).measurement_tracking@[f],
                        mid,
                        entry.user_hash@,
                        agent_id@,
                    ));
                }
            }
            Ok(row)
        },
        Err(_) => {
            proof {
                let i = crate::database::find_row_agent(
                    old(db).measurement_tracking@,
                    mid,
                    agent_id@,
                );
                crate::database::lemma_find_row(
                    old(db).measurement_tracking@,
                    mid,
                    entry.user_hash@,
                    agent_id@,
                );
                assert(crate::database::row_matches(
                    old(db).measurement_tracking@[i],
                    mid,
                    entry.user_hash@,
                    agent_id@,
                ));
            }
            Err(
                ApiError {
                    status: 404,
                    message: String::from_str("Measurement tracking entry not found for this agent"),
                },
            )
        },
    }
}

proof fn lemma_first_missing_ip_at(md: Seq<AgentMetadata>, i: int)
    requires
        0 <= i < md.len(),
        md[i].ip_address is None,
        forall|j: int| 0 <= j < i ==> (#[trigger] md[j]).ip_address is Some,
    ensures
        first_missing_ip(md) == i,
    decreases i,
{
    if i > 0 {
        let d = md.drop_first();
        assert forall|j: int| 0 <= j < i - 1 implies (#[trigger] d[j]).ip_address is Some by {
            assert(d[j] == md[j + 1]);
        }
        assert(d[i - 1] == md[i]);
        lemma_first_missing_ip_at(d, i - 1);
    }
}

proof fn lemma_first_bad_ip_at(md: Seq<AgentMetadata>, store: AgentStore, tag: u32, i: int)
    requires
        0 <= i < md.len(),
        !v6_ip_ok(store, md[i], tag),
        forall|j: int| 0 <= j < i ==> v6_ip_ok(store, #[trigger] md[j], tag),
    ensures
        first_bad_ip(md, store, tag) == i,
    decreases i,
{
    if i > 0 {
        let d = md.drop_first();
        assert forall|j: int| 0 <= j < i - 1 implies v6_ip_ok(store, #[trigger] d[j], tag) by {
            assert(d[j] == md[j + 1]);
        }
        assert(d[i - 1] == md[i]);
        lemma_first_bad_ip_at(d, store, tag, i - 1);
    }
}

} // verus!
