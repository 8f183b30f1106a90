//! The probe codec: validation of positional JSON probe arrays, the
//! compact framed binary record each probe is serialized to, and
//! size-bounded batching of those records.
use crate::ip::{ip_text, spec_parse_ip, v4_mapped, v6_bytes, IpAddress};
use crate::text::{ascii_string, chars_of_bytes, dec_text};
use vstd::prelude::*;

verus! {

// ---------------------------------------------------------------------------
// Protocols
// ---------------------------------------------------------------------------
/// The protocol a probe is sent with.
#[derive(PartialEq, Eq, Structural, Clone, Copy, Debug)]
pub enum Protocol {
    ICMP,
    UDP,
    TCP,
    ICMPV6,
}

/// ASCII lowercase folding of one character.
pub open spec fn lower_char(c: char) -> char {
    if 'A' <= c && c <= 'Z' {
        ((c as u8) + 32) as char
    } else {
        c
    }
}

pub open spec fn lower_chars(s: Seq<char>) -> Seq<char> {
    s.map_values(|c: char| lower_char(c))
}

/// The protocol named by a string, matched case-insensitively.
pub open spec fn spec_protocol_of(s: Seq<char>) -> Option<Protocol> {
    if lower_chars(s) == seq!['t', 'c', 'p'] {
        Some(Protocol::TCP)
    } else if lower_chars(s) == seq!['u', 'd', 'p'] {
        Some(Protocol::UDP)
    } else if lower_chars(s) == seq!['i', 'c', 'm', 'p'] {
        Some(Protocol::ICMP)
    } else if lower_chars(s) == seq!['i', 'c', 'm', 'p', 'v', '6'] {
        Some(Protocol::ICMPV6)
    } else {
        None
    }
}

impl Protocol {
    /// The tag under which the protocol is carried in a binary record.
    pub open spec fn spec_tag(self) -> u16 {
        match self {
            Protocol::ICMP => 0,
            Protocol::UDP => 1,
            Protocol::TCP => 2,
            Protocol::ICMPV6 => 3,
        }
    }

    /// The wire tag of the protocol in the framed record's enum field.
    pub fn to_capnp(&self) -> (r: u16)
        ensures
            r == self.spec_tag(),
    {
        match self {
            Protocol::ICMP => 0,
            Protocol::UDP => 1,
            Protocol::TCP => 2,
            Protocol::ICMPV6 => 3,
        }
    }

    /// The protocol with the given wire tag.
    pub fn from_tag(tag: u16) -> (r: Option<Protocol>)
        ensures
            r == spec_protocol_from_tag(tag),
    {
        match tag {
            0 => Some(Protocol::ICMP),
            1 => Some(Protocol::UDP),
            2 => Some(Protocol::TCP),
            3 => Some(Protocol::ICMPV6),
            _ => None,
        }
    }

    /// Parses a protocol name, case-insensitively.
    pub fn parse(s: &str) -> (r: Option<Protocol>)
        ensures
            r == spec_protocol_of(s@),
    {
        if !s.is_ascii() {
            proof {
                lemma_non_ascii_protocol(s@);
            }
            return None;
        }
        proof {
            assert forall|i: int| 0 <= i < s@.len() implies crate::text::char_lt_128(
                #[trigger] s@[i],
            ) by {
                assert('\0' <= s@[i] <= '\u{7f}');
            }
        }
        let n = s.unicode_len();
        if n == 3 {
            let c0 = lower_byte(s.get_ascii(0));
            let c1 = lower_byte(s.get_ascii(1));
            let c2 = lower_byte(s.get_ascii(2));
            proof {
                lemma_lower_byte_char(s@, 0);
                lemma_lower_byte_char(s@, 1);
                lemma_lower_byte_char(s@, 2);
            }
            if c0 == 116 && c1 == 99 && c2 == 112 {
                proof {
                    assert(lower_chars(s@) =~= seq!['t', 'c', 'p']);
                }
                Some(Protocol::TCP)
            } else if c0 == 117 && c1 == 100 && c2 == 112 {
                proof {
                    assert(lower_chars(s@) =~= seq!['u', 'd', 'p']);
                }
                Some(Protocol::UDP)
            } else {
                proof {
                    lemma_lower_len(s@);
                }
                None
            }
        } else if n == 4 {
            let c0 = lower_byte(s.get_ascii(0));
            let c1 = lower_byte(s.get_ascii(1));
            let c2 = lower_byte(s.get_ascii(2));
            let c3 = lower_byte(s.get_ascii(3));
            proof {
                lemma_lower_byte_char(s@, 0);
                lemma_lower_byte_char(s@, 1);
                lemma_lower_byte_char(s@, 2);
                lemma_lower_byte_char(s@, 3);
            }
            if c0 == 105 && c1 == 99 && c2 == 109 && c3 == 112 {
                proof {
                    assert(lower_chars(s@) =~= seq!['i', 'c', 'm', 'p']);
                }
                Some(Protocol::ICMP)
            } else {
                proof {
                    lemma_lower_len(s@);
                }
                None
            }
        } else if n == 6 {
            let c0 = lower_byte(s.get_ascii(0));
            let c1 = lower_byte(s.get_ascii(1));
            let c2 = lower_byte(s.get_ascii(2));
            let c3 = lower_byte(s.get_ascii(3));
            let c4 = lower_byte(s.get_ascii(4));
            let c5 = lower_byte(s.get_ascii(5));
            proof {
                lemma_lower_byte_char(s@, 0);
                lemma_lower_byte_char(s@, 1);
                lemma_lower_byte_char(s@, 2);
                lemma_lower_byte_char(s@, 3);
                lemma_lower_byte_char(s@, 4);
                lemma_lower_byte_char(s@, 5);
            }
            if c0 == 105 && c1 == 99 && c2 == 109 && c3 == 112 && c4 == 118 && c5 == 54 {
                proof {
                    assert(lower_chars(s@) =~= seq!['i', 'c', 'm', 'p', 'v', '6']);
                }
                Some(Protocol::ICMPV6)
            } else {
                proof {
                    lemma_lower_len(s@);
                }
                None
            }
        } else {
            proof {
                assert(lower_chars(s@).len() == s@.len());
            }
            None
        }
    }
}

impl core::str::FromStr for Protocol {
    type Err = String;

    /// Parses a protocol name, case-insensitively; the error carries the
    /// rejected name.
    fn from_str(s: &str) -> (r: Result<Protocol, String>)
        ensures
            r matches Ok(p) ==> spec_protocol_of(s@) == Some(p),
            r is Err <==> spec_protocol_of(s@) is None,
    {
        match Protocol::parse(s) {
            Some(p) => Ok(p),
            None => {
                let mut m = "Invalid protocol: ".to_owned();
                m.append(s);
                Err(m)
            },
        }
    }
}

pub open spec fn spec_protocol_from_tag(tag: u16) -> Option<Protocol> {
    if tag == 0 {
        Some(Protocol::ICMP)
    } else if tag == 1 {
        Some(Protocol::UDP)
    } else if tag == 2 {
        Some(Protocol::TCP)
    } else if tag == 3 {
        Some(Protocol::ICMPV6)
    } else {
        None
    }
}

fn lower_byte(b: u8) -> (r: u8)
    ensures
        b < 128 ==> r as char == lower_char(b as char),
        b < 128 ==> r < 128,
{
    if b >= 65 && b <= 90 {
        b + 32
    } else {
        b
    }
}

proof fn lemma_lower_byte_char(s: Seq<char>, i: int)
    requires
        0 <= i < s.len(),
        crate::text::char_lt_128(s[i]),
    ensures
        lower_chars(s)[i] == lower_char(s[i]),
        s[i] as u8 as char == s[i],
{
    crate::text::lemma_ascii_char_byte(s[i], s[i] as u8);
}

/// Folding preserves the length, so words of other lengths never match.
proof fn lemma_lower_len(s: Seq<char>)
    ensures
        lower_chars(s).len() == s.len(),
{
}

/// A string with a character outside ASCII names no protocol: folding keeps
/// such a character, and every protocol word is ASCII.
proof fn lemma_non_ascii_protocol(s: Seq<char>)
    requires
        !crate::text::all_ascii(s),
    ensures
        spec_protocol_of(s) is None,
{
    let i = choose|i: int| 0 <= i < s.len() && !crate::text::char_lt_128(#[trigger] s[i]);
    assert(lower_chars(s).len() == s.len());
    assert(lower_chars(s)[i] == lower_char(s[i]));
    assert(!crate::text::char_lt_128(lower_char(s[i])));
    if lower_chars(s) == seq!['t', 'c', 'p'] {
        assert(lower_chars(s)[i] == seq!['t', 'c', 'p'][i]);
    }
    if lower_chars(s) == seq!['u', 'd', 'p'] {
        assert(lower_chars(s)[i] == seq!['u', 'd', 'p'][i]);
    }
    if lower_chars(s) == seq!['i', 'c', 'm', 'p'] {
        assert(lower_chars(s)[i] == seq!['i', 'c', 'm', 'p'][i]);
    }
    if lower_chars(s) == seq!['i', 'c', 'm', 'p', 'v', '6'] {
        assert(lower_chars(s)[i] == seq!['i', 'c', 'm', 'p', 'v', '6'][i]);
    }
}

// ---------------------------------------------------------------------------
// The JSON probe model
// ---------------------------------------------------------------------------
/// One element of a positional probe array, as far as the codec reads it:
/// a string, an unsigned integer, some other kind of number, or anything
/// else.
#[derive(Debug, Clone)]
pub enum ProbeField {
    Text(String),
    Uint(u64),
    NonUintNumber,
    Other,
}

/// A probe as submitted: a JSON array of five fields, or some other JSON
/// value.
#[derive(Debug, Clone)]
pub enum ProbeValue {
    List(Vec<ProbeField>),
    Other,
}

/// A parsed and validated probe.
#[derive(Debug, Clone)]
pub struct Probe {
    pub dst_addr: IpAddress,
    pub src_port: u16,
    pub dst_port: u16,
    pub ttl: u8,
    pub protocol: Protocol,
}

impl Probe {
    /// Whether this parsed probe is well formed.
    pub open spec fn wf(self) -> bool {
        &&& self.src_port >= 1
        &&& self.dst_port >= 1
        &&& self.ttl >= 1
    }
}

/// The probe denoted by a probe value, when every field is valid:
/// `[dst_addr, src_port, dst_port, ttl, protocol]`.
pub open spec fn spec_probe_of(v: ProbeValue) -> Option<Probe> {
    match v {
        ProbeValue::List(fields) => if fields@.len() == 5 {
            match (fields@[0], fields@[1], fields@[2], fields@[3], fields@[4]) {
                (
                    ProbeField::Text(ip),
                    ProbeField::Uint(sp),
                    ProbeField::Uint(dp),
                    ProbeField::Uint(ttl),
                    ProbeField::Text(proto),
                ) => {
                    match (spec_parse_ip(ip@), spec_protocol_of(proto@)) {
                        (Some(addr), Some(protocol)) => if 1 <= sp <= 0xffff && 1 <= dp <= 0xffff
                            && 1 <= ttl <= 0xff {
                            Some(
                                Probe {
                                    dst_addr: addr,
                                    src_port: sp as u16,
                                    dst_port: dp as u16,
                                    ttl: ttl as u8,
                                    protocol,
                                },
                            )
                        } else {
                            None
                        },
                        _ => None,
                    }
                },
                _ => None,
            }
        } else {
            None
        },
        ProbeValue::Other => None,
    }
}

// ---------------------------------------------------------------------------
// Validation messages
// ---------------------------------------------------------------------------
/// The first fault a strict validation pass reports for one field of the
/// array, or `None`; `spec_validate_msg` strings them in field order.
pub open spec fn ip_issue(f: ProbeField) -> Option<Seq<char>> {
    match f {
        ProbeField::Text(s) => if spec_parse_ip(s@) is Some {
            None
        } else {
            Some("Invalid IP address: "@ + s@)
        },
        _ => Some("IP address must be a string"@),
    }
}

pub open spec fn port_issue_v(f: ProbeField, cap: Seq<char>, low: Seq<char>) -> Option<Seq<char>> {
    match f {
        ProbeField::Uint(v) => if 1 <= v <= 0xffff {
            None
        } else {
            Some("Invalid "@ + low + ": "@ + dec_text(v as int))
        },
        ProbeField::NonUintNumber => Some(cap + " must be a positive integer"@),
        _ => Some(cap + " must be a number"@),
    }
}

pub open spec fn ttl_issue_v(f: ProbeField) -> Option<Seq<char>> {
    match f {
        ProbeField::Uint(v) => if 1 <= v <= 0xff {
            None
        } else {
            Some("Invalid TTL: "@ + dec_text(v as int))
        },
        ProbeField::NonUintNumber => Some("TTL must be a positive integer"@),
        _ => Some("TTL must be a number"@),
    }
}

pub open spec fn proto_issue(f: ProbeField) -> Option<Seq<char>> {
    match f {
        ProbeField::Text(s) => if spec_protocol_of(s@) is Some {
            None
        } else {
            Some("Invalid protocol: "@ + s@)
        },
        _ => Some("Protocol must be a string"@),
    }
}

/// The message `validate_json_probe` reports, or `None` when the probe is
/// valid.
pub open spec fn spec_validate_msg(v: ProbeValue) -> Option<Seq<char>> {
    match v {
        ProbeValue::Other => Some("Probe must be a JSON array"@),
        ProbeValue::List(fs) => if fs@.len() != 5 {
            Some("Expected 5 elements, got "@ + dec_text(fs@.len() as int))
        } else if ip_issue(fs@[0]) is Some {
            ip_issue(fs@[0])
        } else if port_issue_v(fs@[1], "Source port"@, "source port"@) is Some {
            port_issue_v(fs@[1], "Source port"@, "source port"@)
        } else if port_issue_v(fs@[2], "Destination port"@, "destination port"@) is Some {
            port_issue_v(fs@[2], "Destination port"@, "destination port"@)
        } else if ttl_issue_v(fs@[3]) is Some {
            ttl_issue_v(fs@[3])
        } else {
            proto_issue(fs@[4])
        },
    }
}

/// The per-field faults the parsing path reports, which word its messages
/// differently from the validation pass.
pub open spec fn port_issue_p(f: ProbeField, cap: Seq<char>, low: Seq<char>) -> Option<Seq<char>> {
    match f {
        ProbeField::Uint(v) => if 1 <= v <= 0xffff {
            None
        } else {
            Some(cap + " out of range: "@ + dec_text(v as int))
        },
        ProbeField::NonUintNumber => Some("Invalid "@ + low + " format"@),
        _ => Some(cap + " must be a number"@),
    }
}

pub open spec fn ttl_issue_p(f: ProbeField) -> Option<Seq<char>> {
    match f {
        ProbeField::Uint(v) => if 1 <= v <= 0xff {
            None
        } else {
            Some("TTL out of range: "@ + dec_text(v as int))
        },
        ProbeField::NonUintNumber => Some("Invalid TTL format"@),
        _ => Some("TTL must be a number"@),
    }
}

/// The fault a well-shaped five-field array carries on the parsing path.
pub open spec fn spec_fields_issue_p(fs: Seq<ProbeField>) -> Option<Seq<char>>
    recommends
        fs.len() == 5,
{
    if ip_issue(fs[0]) is Some {
        ip_issue(fs[0])
    } else if port_issue_p(fs[1], "Source port"@, "source port"@) is Some {
        port_issue_p(fs[1], "Source port"@, "source port"@)
    } else if port_issue_p(fs[2], "Destination port"@, "destination port"@) is Some {
        port_issue_p(fs[2], "Destination port"@, "destination port"@)
    } else if ttl_issue_p(fs[3]) is Some {
        ttl_issue_p(fs[3])
    } else {
        proto_issue(fs[4])
    }
}

/// The message `Probe::from_json` reports, or `None` when the probe parses.
pub open spec fn spec_fromjson_msg(v: ProbeValue) -> Option<Seq<char>> {
    match v {
        ProbeValue::Other => Some("Expected JSON array for probe"@),
        ProbeValue::List(fs) => if fs@.len() != 5 {
            Some("Invalid probe format: expected 5 elements in array"@)
        } else {
            spec_fields_issue_p(fs@)
        },
    }
}

/// The message `deserialize_json_to_capnp` reports, or `None`.
pub open spec fn spec_capnp_msg(v: ProbeValue) -> Option<Seq<char>> {
    match v {
        ProbeValue::Other => Some("Expected JSON array for probe"@),
        ProbeValue::List(fs) => if fs@.len() != 5 {
            Some(
                "Invalid probe format: expected 5 elements in array, got "@ + dec_text(
                    fs@.len() as int,
                ),
            )
        } else {
            spec_fields_issue_p(fs@)
        },
    }
}

/// Validity and the absence of a reported fault are one and the same.
pub proof fn lemma_valid_iff_no_issue(v: ProbeValue)
    ensures
        spec_validate_msg(v) is None <==> spec_probe_of(v) is Some,
        spec_fromjson_msg(v) is None <==> spec_probe_of(v) is Some,
        spec_capnp_msg(v) is None <==> spec_probe_of(v) is Some,
{
}

// ---------------------------------------------------------------------------
// Executable validation and parsing
// ---------------------------------------------------------------------------
/// The decimal text of a number, as a `String`.
fn u64_string(v: u64) -> (r: String)
    ensures
        r@ == dec_text(v as int),
{
    let mut out: Vec<u8> = Vec::new();
    crate::ip::push_dec(&mut out, v);
    ascii_string(out)
}

/// Checks one probe array strictly, reporting the first fault.
pub fn validate_json_probe(probe: &ProbeValue) -> (r: Result<(), String>)
    ensures
        r is Ok <==> spec_probe_of(*probe) is Some,
        r matches Err(e) ==> spec_validate_msg(*probe) == Some(e@),
{
    proof {
        lemma_valid_iff_no_issue(*probe);
    }
    let fs = match probe {
        ProbeValue::List(fs) => fs,
        ProbeValue::Other => {
            return Err(String::from_str("Probe must be a JSON array"));
        },
    };
    if fs.len() != 5 {
        let mut m = String::from_str("Expected 5 elements, got ");
        let d = u64_string(fs.len() as u64);
        m.append(d.as_str());
        return Err(m);
    }
    match &fs[0] {
        ProbeField::Text(s) => {
            if crate::ip::parse_ip(s.as_str()).is_none() {
                let mut m = String::from_str("Invalid IP address: ");
                m.append(s.as_str());
                return Err(m);
            }
        },
        _ => {
            return Err(String::from_str("IP address must be a string"));
        },
    }
    match &fs[1] {
        ProbeField::Uint(v) => {
            if *v == 0 || *v > 0xffff {
                let mut m = String::from_str("Invalid source port: ");
                let d = u64_string(*v);
                m.append(d.as_str());
                proof {
                    assert(m@ =~= "Invalid "@ + "source port"@ + ": "@ + dec_text(*v as int)) by {
                        reveal_strlit("Invalid source port: ");
                        reveal_strlit("Invalid ");
                        reveal_strlit("source port");
                        reveal_strlit(": ");
                    }
                }
                return Err(m);
            }
        },
        ProbeField::NonUintNumber => {
            let m = String::from_str("Source port must be a positive integer");
            proof {
                assert(m@ =~= "Source port"@ + " must be a positive integer"@) by {
                    reveal_strlit("Source port must be a positive integer");
                    reveal_strlit("Source port");
                    reveal_strlit(" must be a positive integer");
                }
            }
            return Err(m);
        },
        _ => {
            let m = String::from_str("Source port must be a number");
            proof {
                assert(m@ =~= "Source port"@ + " must be a number"@) by {
                    reveal_strlit("Source port must be a number");
                    reveal_strlit("Source port");
                    reveal_strlit(" must be a number");
                }
            }
            return Err(m);
        },
    }
    match &fs[2] {
        ProbeField::Uint(v) => {
            if *v == 0 || *v > 0xffff {
                let mut m = String::from_str("Invalid destination port: ");
                let d = u64_string(*v);
                m.append(d.as_str());
                proof {
                    assert(m@ =~= "Invalid "@ + "destination port"@ + ": "@ + dec_text(*v as int))
                        by {
                        reveal_strlit("Invalid destination port: ");
                        reveal_strlit("Invalid ");
                        reveal_strlit("destination port");
                        reveal_strlit(": ");
                    }
                }
                return Err(m);
            }
        },
        ProbeField::NonUintNumber => {
            let m = String::from_str("Destination port must be a positive integer");
            proof {
                assert(m@ =~= "Destination port"@ + " must be a positive integer"@) by {
                    reveal_strlit("Destination port must be a positive integer");
                    reveal_strlit("Destination port");
                    reveal_strlit(" must be a positive integer");
                }
            }
            return Err(m);
        },
        _ => {
            let m = String::from_str("Destination port must be a number");
            proof {
                assert(m@ =~= "Destination port"@ + " must be a number"@) by {
                    reveal_strlit("Destination port must be a number");
                    reveal_strlit("Destination port");
                    reveal_strlit(" must be a number");
                }
            }
            return Err(m);
        },
    }
    match &fs[3] {
        ProbeField::Uint(v) => {
            if *v == 0 || *v > 0xff {
                let mut m = String::from_str("Invalid TTL: ");
                let d = u64_string(*v);
                m.append(d.as_str());
                return Err(m);
            }
        },
        ProbeField::NonUintNumber => {
            return Err(String::from_str("TTL must be a positive integer"));
        },
        _ => {
            return Err(String::from_str("TTL must be a number"));
        },
    }
    match &fs[4] {
        ProbeField::Text(s) => {
            if Protocol::parse(s.as_str()).is_none() {
                let mut m = String::from_str("Invalid protocol: ");
                m.append(s.as_str());
                return Err(m);
            }
        },
        _ => {
            return Err(String::from_str("Protocol must be a string"));
        },
    }
    Ok(())
}

/// Index of the first invalid probe in the sequence, or -1.
pub open spec fn first_invalid(ps: Seq<ProbeValue>) -> int
    decreases ps.len(),
{
    if ps.len() == 0 {
        -1
    } else if spec_probe_of(ps[0]) is None {
        0
    } else {
        let r = first_invalid(ps.drop_first());
        if r < 0 {
            -1
        } else {
            r + 1
        }
    }
}

pub proof fn lemma_first_invalid(ps: Seq<ProbeValue>)
    ensures
        first_invalid(ps) >= 0 ==> {
            &&& first_invalid(ps) < ps.len()
            &&& spec_probe_of(ps[first_invalid(ps)]) is None
            &&& forall|j: int|
                0 <= j < first_invalid(ps) ==> spec_probe_of(#[trigger] ps[j]) is Some
        },
        first_invalid(ps) < 0 ==> forall|j: int|
            0 <= j < ps.len() ==> spec_probe_of(#[trigger] ps[j]) is Some,
    decreases ps.len(),
{
    if ps.len() > 0 && !(spec_probe_of(ps[0]) is None) {
        let d = ps.drop_first();
        lemma_first_invalid(d);
        if first_invalid(d) >= 0 {
            assert(ps[first_invalid(ps)] == d[first_invalid(d)]);
            assert forall|j: int| 0 <= j < first_invalid(ps) implies spec_probe_of(
                #[trigger] ps[j],
            ) is Some by {
                if j > 0 {
                    assert(d[j - 1] == ps[j]);
                }
            }
        } else {
            assert forall|j: int| 0 <= j < ps.len() implies spec_probe_of(
                #[trigger] ps[j],
            ) is Some by {
                if j > 0 {
                    assert(d[j - 1] == ps[j]);
                }
            }
        }
    }
}

/// Checks a whole batch, reporting the first faulty probe with its index.
pub fn validate_probes(probes: &Vec<ProbeValue>) -> (r: Result<(), String>)
    ensures
        r is Ok <==> first_invalid(probes@) < 0,
        r matches Err(e) ==> {
            let i = first_invalid(probes@);
            &&& i >= 0
            &&& (spec_validate_msg(probes@[i]) matches Some(m) && e@ == "Probe at index "@
                + dec_text(i) + ": "@ + m)
        },
{
    let mut i: usize = 0;
    proof {
        lemma_first_invalid(probes@);
    }
    while i < probes.len()
        invariant
            i <= probes@.len(),
            forall|j: int| 0 <= j < i ==> spec_probe_of(#[trigger] probes@[j]) is Some,
            first_invalid(probes@) >= 0 ==> {
                &&& first_invalid(probes@) < probes@.len()
                &&& spec_probe_of(probes@[first_invalid(probes@)]) is None
                &&& forall|j: int|
                    0 <= j < first_invalid(probes@) ==> spec_probe_of(
                        #[trigger] probes@[j],
                    ) is Some
            },
            first_invalid(probes@) < 0 ==> forall|j: int|
                0 <= j < probes@.len() ==> spec_probe_of(#[trigger] probes@[j]) is Some,
        decreases probes@.len() - i,
    {
        match validate_json_probe(&probes[i]) {
            Ok(_) => {},
            Err(err) => {
                proof {
                    assert(first_invalid(probes@) == i);
                }
                let mut m = String::from_str("Probe at index ");
                let d = u64_string(i as u64);
                m.append(d.as_str());
                m.append(": ");
                m.append(err.as_str());
                return Err(m);
            },
        }
        i += 1;
    }
    proof {
        if first_invalid(probes@) >= 0 {
            assert(spec_probe_of(probes@[first_invalid(probes@)]) is Some);
        }
    }
    Ok(())
}

impl Probe {
    /// Parses a probe from the positional array form.
    pub fn from_json(value: &ProbeValue) -> (r: Result<Probe, String>)
        ensures
            r matches Ok(p) ==> spec_probe_of(*value) == Some(p),
            r matches Err(e) ==> spec_fromjson_msg(*value) == Some(e@),
            r is Ok <==> spec_probe_of(*value) is Some,
    {
        proof {
            lemma_valid_iff_no_issue(*value);
        }
        let fs = match value {
            ProbeValue::List(fs) => fs,
            ProbeValue::Other => {
                return Err(String::from_str("Expected JSON array for probe"));
            },
        };
        if fs.len() != 5 {
            return Err(String::from_str("Invalid probe format: expected 5 elements in array"));
        }
        let dst_addr = match &fs[0] {
            ProbeField::Text(s) => {
                match crate::ip::parse_ip(s.as_str()) {
                    Some(a) => a,
                    None => {
                        let mut m = String::from_str("Invalid IP address: ");
                        m.append(s.as_str());
                        return Err(m);
                    },
                }
            },
            _ => {
                return Err(String::from_str("IP address must be a string"));
            },
        };
        let src_port = match parse_port(&fs[1], true) {
            Ok(p) => p,
            Err(m) => {
                return Err(m);
            },
        };
        let dst_port = match parse_port(&fs[2], false) {
            Ok(p) => p,
            Err(m) => {
                return Err(m);
            },
        };
        let ttl = match &fs[3] {
            ProbeField::Uint(v) => {
                if *v == 0 || *v > 0xff {
                    let mut m = String::from_str("TTL out of range: ");
                    let d = u64_string(*v);
                    m.append(d.as_str());
                    return Err(m);
                }
                (*v) as u8
            },
            ProbeField::NonUintNumber => {
                return Err(String::from_str("Invalid TTL format"));
            },
            _ => {
                return Err(String::from_str("TTL must be a number"));
            },
        };
        let protocol = match &fs[4] {
            ProbeField::Text(s) => {
                match Protocol::parse(s.as_str()) {
                    Some(p) => p,
                    None => {
                        let mut m = String::from_str("Invalid protocol: ");
                        m.append(s.as_str());
                        return Err(m);
                    },
                }
            },
            _ => {
                return Err(String::from_str("Protocol must be a string"));
            },
        };
        Ok(Probe { dst_addr, src_port, dst_port, ttl, protocol })
    }
}

/// One port field on the parsing path; `src` picks which name the messages
/// carry.
fn parse_port(f: &ProbeField, src: bool) -> (r: Result<u16, String>)
    ensures
        r matches Ok(p) ==> (f matches ProbeField::Uint(v) && 1 <= *v && *v <= 0xffff && p == *v),
        r matches Err(e) ==> port_issue_p(
            *f,
            if src {
                "Source port"@
            } else {
                "Destination port"@
            },
            if src {
                "source port"@
            } else {
                "destination port"@
            },
        ) == Some(e@),
        r is Ok <==> port_issue_p(*f, "x"@, "y"@) is None,
{
    proof {
        lemma_port_issue_name_free(*f);
    }
    match f {
        ProbeField::Uint(v) => {
            if *v == 0 || *v > 0xffff {
                let mut m = if src {
                    String::from_str("Source port out of range: ")
                } else {
                    String::from_str("Destination port out of range: ")
                };
                let d = u64_string(*v);
                m.append(d.as_str());
                proof {
                    if src {
                        assert(m@ =~= "Source port"@ + " out of range: "@ + dec_text(*v as int))
                            by {
                            reveal_strlit("Source port out of range: ");
                            reveal_strlit("Source port");
                            reveal_strlit(" out of range: ");
                        }
                    } else {
                        assert(m@ =~= "Destination port"@ + " out of range: "@ + dec_text(
                            *v as int,
                        )) by {
                            reveal_strlit("Destination port out of range: ");
                            reveal_strlit("Destination port");
                            reveal_strlit(" out of range: ");
                        }
                    }
                }
                Err(m)
            } else {
                Ok((*v) as u16)
            }
        },
        ProbeField::NonUintNumber => {
            let m = if src {
                String::from_str("Invalid source port format")
            } else {
                String::from_str("Invalid destination port format")
            };
            proof {
                if src {
                    assert(m@ =~= "Invalid "@ + "source port"@ + " format"@) by {
                        reveal_strlit("Invalid source port format");
                        reveal_strlit("Invalid ");
                        reveal_strlit("source port");
                        reveal_strlit(" format");
                    }
                } else {
                    assert(m@ =~= "Invalid "@ + "destination port"@ + " format"@) by {
                        reveal_strlit("Invalid destination port format");
                        reveal_strlit("Invalid ");
                        reveal_strlit("destination port");
                        reveal_strlit(" format");
                    }
                }
            }
            Err(m)
        },
        _ => {
            let m = if src {
                String::from_str("Source port must be a number")
            } else {
                String::from_str("Destination port must be a number")
            };
            proof {
                if src {
                    assert(m@ =~= "Source port"@ + " must be a number"@) by {
                        reveal_strlit("Source port must be a number");
                        reveal_strlit("Source port");
                        reveal_strlit(" must be a number");
                    }
                } else {
                    assert(m@ =~= "Destination port"@ + " must be a number"@) by {
                        reveal_strlit("Destination port must be a number");
                        reveal_strlit("Destination port");
                        reveal_strlit(" must be a number");
                    }
                }
            }
            Err(m)
        },
    }
}

/// Whether the port issue exists does not depend on the names woven into
/// the message.
proof fn lemma_port_issue_name_free(f: ProbeField)
    ensures
        forall|a: Seq<char>, b: Seq<char>, c: Seq<char>, d: Seq<char>|
            (#[trigger] port_issue_p(f, a, b)) is None <==> (#[trigger] port_issue_p(
                f,
                c,
                d,
            )) is None,
{
}

// ---------------------------------------------------------------------------
// The framed binary record
// ---------------------------------------------------------------------------
/// The destination address a probe is sent to, as its 128-bit value; IPv4
/// is normalized to the IPv6-mapped form.
pub open spec fn mapped_bits(ip: IpAddress) -> u128 {
    match ip {
        IpAddress::V4(v) => v4_mapped(v),
        IpAddress::V6(a) => a,
    }
}

pub open spec fn le16(v: u16) -> Seq<u8> {
    seq![v as u8, (v >> 8) as u8]
}

/// The framed binary record of a probe: an eight-byte frame header naming
/// one five-word segment, a root pointer to a struct of one data word and
/// one pointer word, the packed scalar fields, a pointer to a sixteen-byte
/// data blob, and the destination address bytes. The layout is
/// self-describing, so a consumer can skip or add fields.
pub open spec fn record_bytes(p: Probe) -> Seq<u8> {
    seq![0u8, 0u8, 0u8, 0u8, 5u8, 0u8, 0u8, 0u8] + seq![0u8, 0u8, 0u8, 0u8, 1u8, 0u8, 1u8, 0u8]
        + le16(p.src_port) + le16(p.dst_port) + seq![p.ttl, 0u8] + le16(p.protocol.spec_tag())
        + seq![1u8, 0u8, 0u8, 0u8, 130u8, 0u8, 0u8, 0u8] + v6_bytes(mapped_bits(p.dst_addr))
}

/// A record read back from its framed bytes.
#[derive(PartialEq, Eq, Structural, Clone, Copy, Debug)]
pub struct ProbeRecord {
    pub dst_addr: u128,
    pub src_port: u16,
    pub dst_port: u16,
    pub ttl: u8,
    pub protocol: Protocol,
}

/// The record a probe serializes to.
pub open spec fn record_of(p: Probe) -> ProbeRecord {
    ProbeRecord {
        dst_addr: mapped_bits(p.dst_addr),
        src_port: p.src_port,
        dst_port: p.dst_port,
        ttl: p.ttl,
        protocol: p.protocol,
    }
}

pub open spec fn u16_le(lo: u8, hi: u8) -> u16 {
    (lo as u16) | ((hi as u16) << 8)
}

/// The sixteen-byte big-endian value.
pub open spec fn be_u128(s: Seq<u8>) -> u128
    recommends
        s.len() == 16,
{
    ((s[0] as u128) << 120) | ((s[1] as u128) << 112) | ((s[2] as u128) << 104) | ((s[3] as u128)
        << 96) | ((s[4] as u128) << 88) | ((s[5] as u128) << 80) | ((s[6] as u128) << 72) | ((
    s[7] as u128) << 64) | ((s[8] as u128) << 56) | ((s[9] as u128) << 48) | ((s[10] as u128) << 40)
        | ((s[11] as u128) << 32) | ((s[12] as u128) << 24) | ((s[13] as u128) << 16) | ((
    s[14] as u128) << 8) | (s[15] as u128)
}

/// Whether the framing of a 48-byte record is intact.
pub open spec fn record_shape_ok(b: Seq<u8>) -> bool {
    &&& b.len() == 48
    &&& b.subrange(0, 16) == seq![
        0u8,
        0u8,
        0u8,
        0u8,
        5u8,
        0u8,
        0u8,
        0u8,
        0u8,
        0u8,
        0u8,
        0u8,
        1u8,
        0u8,
        1u8,
        0u8,
    ]
    &&& b[21] == 0
    &&& b.subrange(24, 32) == seq![1u8, 0u8, 0u8, 0u8, 130u8, 0u8, 0u8, 0u8]
    &&& spec_protocol_from_tag(u16_le(b[22], b[23])) is Some
}

/// The record denoted by a byte string, when it is a well-framed record.
pub open spec fn spec_decode_record(b: Seq<u8>) -> Option<ProbeRecord> {
    if record_shape_ok(b) {
        Some(
            ProbeRecord {
                dst_addr: be_u128(b.subrange(32, 48)),
                src_port: u16_le(b[16], b[17]),
                dst_port: u16_le(b[18], b[19]),
                ttl: b[20],
                protocol: spec_protocol_from_tag(u16_le(b[22], b[23]))->Some_0,
            },
        )
    } else {
        None
    }
}

/// Round trip: decoding the bytes a probe encodes to yields exactly the
/// probe's record, its address in IPv6-mapped form and nothing else changed.
pub proof fn lemma_record_roundtrip(p: Probe)
    ensures
        record_bytes(p).len() == 48,
        spec_decode_record(record_bytes(p)) == Some(record_of(p)),
{
    let b = record_bytes(p);
    let a = mapped_bits(p.dst_addr);
    assert(b.len() == 48);
    assert(b.subrange(0, 16) =~= seq![
        0u8,
        0u8,
        0u8,
        0u8,
        5u8,
        0u8,
        0u8,
        0u8,
        0u8,
        0u8,
        0u8,
        0u8,
        1u8,
        0u8,
        1u8,
        0u8,
    ]);
    assert(b.subrange(24, 32) =~= seq![1u8, 0u8, 0u8, 0u8, 130u8, 0u8, 0u8, 0u8]);
    assert(b[16] == p.src_port as u8 && b[17] == (p.src_port >> 8) as u8);
    assert(b[18] == p.dst_port as u8 && b[19] == (p.dst_port >> 8) as u8);
    assert(b[20] == p.ttl && b[21] == 0);
    assert(b[22] == p.protocol.spec_tag() as u8 && b[23] == (p.protocol.spec_tag() >> 8) as u8);
    assert(forall|v: u16| u16_le(v as u8, (v >> 8) as u8) == v) by (bit_vector);
    assert(u16_le(b[16], b[17]) == p.src_port);
    assert(u16_le(b[18], b[19]) == p.dst_port);
    assert(u16_le(b[22], b[23]) == p.protocol.spec_tag());
    assert(spec_protocol_from_tag(p.protocol.spec_tag()) == Some(p.protocol));
    let t = b.subrange(32, 48);
    assert(forall|i: int| 0 <= i < 16 ==> t[i] == v6_bytes(a)[i]);
    assert(forall|i: int| 0 <= i < 16 ==> v6_bytes(a)[i] == (a >> (((15 - i) * 8) as u128)) as u8);
    assert(t[0] == (a >> 120u128) as u8 && t[1] == (a >> 112u128) as u8 && t[2] == (a
        >> 104u128) as u8 && t[3] == (a >> 96u128) as u8 && t[4] == (a >> 88u128) as u8 && t[5] == (
    a >> 80u128) as u8 && t[6] == (a >> 72u128) as u8 && t[7] == (a >> 64u128) as u8 && t[8] == (a
        >> 56u128) as u8 && t[9] == (a >> 48u128) as u8 && t[10] == (a >> 40u128) as u8 && t[11]
        == (a >> 32u128) as u8 && t[12] == (a >> 24u128) as u8 && t[13] == (a >> 16u128) as u8
        && t[14] == (a >> 8u128) as u8 && t[15] == (a >> 0u128) as u8) by {
        assert(((15 - 15) * 8) as u128 == 0u128);
    }
    assert(forall|x: u128| (x >> 0u128) as u8 == x as u8) by (bit_vector);
    assert((((a >> 120u128) as u8 as u128) << 120u128) | (((a >> 112u128) as u8 as u128)
        << 112u128) | (((a >> 104u128) as u8 as u128) << 104u128) | (((a >> 96u128) as u8 as u128)
        << 96u128) | (((a >> 88u128) as u8 as u128) << 88u128) | (((a >> 80u128) as u8 as u128)
        << 80u128) | (((a >> 72u128) as u8 as u128) << 72u128) | (((a >> 64u128) as u8 as u128)
        << 64u128) | (((a >> 56u128) as u8 as u128) << 56u128) | (((a >> 48u128) as u8 as u128)
        << 48u128) | (((a >> 40u128) as u8 as u128) << 40u128) | (((a >> 32u128) as u8 as u128)
        << 32u128) | (((a >> 24u128) as u8 as u128) << 24u128) | (((a >> 16u128) as u8 as u128)
        << 16u128) | (((a >> 8u128) as u8 as u128) << 8u128) | ((a as u8) as u128) == a)
        by (bit_vector);
    assert(be_u128(t) == a);
}

impl Probe {
    /// Serializes the probe to its framed binary record.
    pub fn to_capnp(&self) -> (r: Vec<u8>)
        ensures
            r@ == record_bytes(*self),
            r@.len() == 48,
    {
        let mut out: Vec<u8> = Vec::new();
        out.push(0);
        out.push(0);
        out.push(0);
        out.push(0);
        out.push(5);
        out.push(0);
        out.push(0);
        out.push(0);
        out.push(0);
        out.push(0);
        out.push(0);
        out.push(0);
        out.push(1);
        out.push(0);
        out.push(1);
        out.push(0);
        out.push(self.src_port as u8);
        out.push((self.src_port >> 8) as u8);
        out.push(self.dst_port as u8);
        out.push((self.dst_port >> 8) as u8);
        out.push(self.ttl);
        out.push(0);
        let tag = self.protocol.to_capnp();
        out.push(tag as u8);
        out.push((tag >> 8) as u8);
        out.push(1);
        out.push(0);
        out.push(0);
        out.push(0);
        out.push(130);
        out.push(0);
        out.push(0);
        out.push(0);
        let m = match &self.dst_addr {
            IpAddress::V4(v) => {
                let mapped: u128 = 0xffff_0000_0000u128 | (*v as u128);
                mapped
            },
            IpAddress::V6(a) => *a,
        };
        let mut i: usize = 0;
        proof {
            assert(out@.subrange(0, 32) =~= out@);
            assert(out@ =~= record_bytes(*self).subrange(0, 32));
        }
        while i < 16
            invariant
                i <= 16,
                m == mapped_bits(self.dst_addr),
                out@.len() == 32 + i,
                out@.subrange(0, 32) == record_bytes(*self).subrange(0, 32),
                forall|k: int| 0 <= k < i ==> out@[32 + k] == v6_bytes(m)[k],
            decreases 16 - i,
        {
            let shift: u32 = 8 * (15 - (i as u32));
            out.push((m >> (shift as u128)) as u8);
            i += 1;
        }
        proof {
            let rb = record_bytes(*self);
            assert(rb.len() == 48);
            assert(forall|i: int| 0 <= i < 32 ==> out@[i] == rb.subrange(0, 32)[i]);
            assert(forall|i: int| 0 <= i < 32 ==> rb[i] == rb.subrange(0, 32)[i]);
            assert(forall|k: int| 0 <= k < 16 ==> rb[32 + k] == v6_bytes(mapped_bits(self.dst_addr))[k]);
            assert(out@ =~= rb);
        }
        out
    }
}

/// Reads a framed record back; `None` when the framing is not intact.
pub fn decode_probe(bytes: &Vec<u8>) -> (r: Option<ProbeRecord>)
    ensures
        r == spec_decode_record(bytes@),
{
    if bytes.len() != 48 {
        return None;
    }
    let hdr: [u8; 16] = [0, 0, 0, 0, 5, 0, 0, 0, 0, 0, 0, 0, 1, 0, 1, 0];
    let mut i: usize = 0;
    while i < 16
        invariant
            i <= 16,
            bytes@.len() == 48,
            hdr@ == seq![
                0u8,
                0u8,
                0u8,
                0u8,
                5u8,
                0u8,
                0u8,
                0u8,
                0u8,
                0u8,
                0u8,
                0u8,
                1u8,
                0u8,
                1u8,
                0u8,
            ],
            forall|k: int| 0 <= k < i ==> bytes@[k] == hdr@[k],
        decreases 16 - i,
    {
        if bytes[i] != hdr[i] {
            proof {
                assert(bytes@.subrange(0, 16)[i as int] != hdr@[i as int]);
            }
            return None;
        }
        i += 1;
    }
    proof {
        assert(bytes@.subrange(0, 16) =~= hdr@);
    }
    if bytes[21] != 0 {
        return None;
    }
    let ptr: [u8; 8] = [1, 0, 0, 0, 130, 0, 0, 0];
    let mut j: usize = 0;
    while j < 8
        invariant
            j <= 8,
            bytes@.len() == 48,
            ptr@ == seq![1u8, 0u8, 0u8, 0u8, 130u8, 0u8, 0u8, 0u8],
            forall|k: int| 0 <= k < j ==> bytes@[24 + k] == ptr@[k],
        decreases 8 - j,
    {
        if bytes[24 + j] != ptr[j] {
            proof {
                assert(bytes@.subrange(24, 32)[j as int] != ptr@[j as int]);
            }
            return None;
        }
        j += 1;
    }
    proof {
        assert(bytes@.subrange(24, 32) =~= ptr@);
    }
    let tag: u16 = (bytes[22] as u16) | ((bytes[23] as u16) << 8);
    let protocol = match Protocol::from_tag(tag) {
        Some(p) => p,
        None => {
            return None;
        },
    };
    let src_port: u16 = (bytes[16] as u16) | ((bytes[17] as u16) << 8);
    let dst_port: u16 = (bytes[18] as u16) | ((bytes[19] as u16) << 8);
    let ttl = bytes[20];
    let mut a: u128 = 0;
    let mut k: usize = 0;
    while k < 16
        invariant
            k <= 16,
            bytes@.len() == 48,
            partial_be(bytes@.subrange(32, 48), k as int) == a,
        decreases 16 - k,
    {
        a = (a << 8) | (bytes[32 + k] as u128);
        proof {
            assert(bytes@.subrange(32, 48)[k as int] == bytes@[32 + k]);
        }
        k += 1;
    }
    proof {
        lemma_partial_be_full(bytes@.subrange(32, 48));
    }
    Some(ProbeRecord { dst_addr: a, src_port, dst_port, ttl, protocol })
}

/// Parses one probe array and serializes it to its framed record in one
/// step, with the parsing path's error surface.
pub fn deserialize_json_to_capnp(json_value: &ProbeValue) -> (r: Result<Vec<u8>, String>)
    ensures
        r matches Ok(b) ==> (spec_probe_of(*json_value) matches Some(p) && b@ == record_bytes(p)
            && b@.len() == 48),
        r matches Err(e) ==> spec_capnp_msg(*json_value) == Some(e@),
        r is Ok <==> spec_probe_of(*json_value) is Some,
{
    proof {
        lemma_valid_iff_no_issue(*json_value);
    }
    match json_value {
        ProbeValue::List(fs) => {
            if fs.len() != 5 {
                let mut m = String::from_str(
                    "Invalid probe format: expected 5 elements in array, got ",
                );
                let d = u64_string(fs.len() as u64);
                m.append(d.as_str());
                return Err(m);
            }
        },
        ProbeValue::Other => {
            return Err(String::from_str("Expected JSON array for probe"));
        },
    }
    match Probe::from_json(json_value) {
        Ok(p) => Ok(p.to_capnp()),
        Err(e) => Err(e),
    }
}

/// What one probe serializes to, for use over sequences of valid probes.
pub open spec fn spec_record_of_value(v: ProbeValue) -> Seq<u8> {
    record_bytes(spec_probe_of(v)->Some_0)
}

pub open spec fn spec_records(ps: Seq<ProbeValue>) -> Seq<Seq<u8>> {
    ps.map_values(|v: ProbeValue| spec_record_of_value(v))
}

/// Serializes a batch of probes into framed records, packed greedily into
/// byte buffers of at most `max_batch_size` bytes each; the records appear
/// in input order and no record is split across batches. The first invalid
/// probe fails the whole batch, as does a record that alone exceeds the
/// budget.
#[verifier::rlimit(60)]
pub fn deserialize_probes_batch(json_probes: &Vec<ProbeValue>, max_batch_size: usize) -> (r: Result<
    Vec<Vec<u8>>,
    String,
>)
    ensures
        r matches Ok(batches) ==> {
            &&& first_invalid(json_probes@) < 0
            &&& (json_probes@.len() > 0 ==> 48 <= max_batch_size)
            &&& batches@.map_values(|b: Vec<u8>| b@).flatten() == spec_records(
                json_probes@,
            ).flatten()
            &&& (forall|k: int|
                0 <= k < batches@.len() ==> 0 < (#[trigger] batches@[k])@.len() <= max_batch_size)
            &&& (forall|k: int|
                0 <= k < batches@.len() - 1 ==> (#[trigger] batches@[k])@.len() + 48
                    > max_batch_size)
            &&& (json_probes@.len() == 0 ==> batches@.len() == 0)
        },
        r matches Err(e) ==> {
            let i = first_invalid(json_probes@);
            if 48 <= max_batch_size {
                i >= 0 && (spec_capnp_msg(json_probes@[i]) matches Some(m) && e@ == m)
            } else {
                json_probes@.len() > 0 && (if i == 0 {
                    spec_capnp_msg(json_probes@[0]) matches Some(m) && e@ == m
                } else {
                    e@ == "Probe record exceeds the maximum batch size"@
                })
            }
        },
        r is Ok <==> (first_invalid(json_probes@) < 0 && (json_probes@.len() > 0 ==> 48
            <= max_batch_size)),
{
    broadcast use vstd::seq_lib::group_seq_properties;

    let ghost ps = json_probes@;
    proof {
        lemma_first_invalid(ps);
    }
    let mut batches: Vec<Vec<u8>> = Vec::new();
    let mut current: Vec<u8> = Vec::new();
    let mut i: usize = 0;
    proof {
        assert(spec_records(ps.take(0)) =~= Seq::<Seq<u8>>::empty());
        assert(Seq::<Seq<u8>>::empty().flatten() =~= Seq::<u8>::empty());
        assert(batches@.map_values(|b: Vec<u8>| b@) =~= Seq::<Seq<u8>>::empty());
    }
    while i < json_probes.len()
        invariant
            ps == json_probes@,
            i <= ps.len(),
            forall|j: int| 0 <= j < i ==> spec_probe_of(#[trigger] ps[j]) is Some,
            first_invalid(ps) >= 0 ==> {
                &&& first_invalid(ps) < ps.len()
                &&& spec_probe_of(ps[first_invalid(ps)]) is None
                &&& forall|j: int|
                    0 <= j < first_invalid(ps) ==> spec_probe_of(#[trigger] ps[j]) is Some
            },
            first_invalid(ps) < 0 ==> forall|j: int|
                0 <= j < ps.len() ==> spec_probe_of(#[trigger] ps[j]) is Some,
            i > 0 ==> 48 <= max_batch_size,
            batches@.map_values(|b: Vec<u8>| b@).flatten() + current@ == spec_records(
                ps.take(i as int),
            ).flatten(),
            current@.len() <= max_batch_size,
            i == 0 ==> current@.len() == 0 && batches@.len() == 0,
            i > 0 ==> current@.len() > 0,
            forall|k: int|
                0 <= k < batches@.len() ==> 0 < (#[trigger] batches@[k])@.len() <= max_batch_size,
            forall|k: int|
                0 <= k < batches@.len() ==> (#[trigger] batches@[k])@.len() + 48 > max_batch_size,
        decreases ps.len() - i,
    {
        let rec = match deserialize_json_to_capnp(&json_probes[i]) {
            Ok(rec) => rec,
            Err(e) => {
                proof {
                    assert(first_invalid(ps) == i);
                }
                return Err(e);
            },
        };
        if rec.len() > max_batch_size {
            return Err(String::from_str("Probe record exceeds the maximum batch size"));
        }
        let ghost sealed_before = batches@;
        if current.len() > 0 && current.len() > max_batch_size - rec.len() {
            let full = current;
            current = Vec::new();
            batches.push(full);
            proof {
                assert(batches@.map_values(|b: Vec<u8>| b@) =~= sealed_before.map_values(
                    |b: Vec<u8>| b@,
                ).push(full@));
                sealed_before.map_values(|b: Vec<u8>| b@).lemma_flatten_push(full@);
                assert(batches@.map_values(|b: Vec<u8>| b@).flatten() + current@
                    =~= spec_records(ps.take(i as int)).flatten());
            }
        }
        let ghost cur_before = current@;
        current.extend_from_slice(rec.as_slice());
        proof {
            assert(current@ == cur_before + rec@);
            assert(ps.take(i + 1).drop_last() =~= ps.take(i as int));
            assert(ps.take(i + 1).last() == ps[i as int]);
            assert(spec_records(ps.take(i + 1)) =~= spec_records(ps.take(i as int)).push(
                spec_record_of_value(ps[i as int]),
            ));
            spec_records(ps.take(i as int)).lemma_flatten_push(spec_record_of_value(ps[i as int]));
            assert(batches@.map_values(|b: Vec<u8>| b@).flatten() + current@ =~= spec_records(
                ps.take(i + 1),
            ).flatten());
        }
        i += 1;
    }
    proof {
        assert(ps.take(ps.len() as int) =~= ps);
        if first_invalid(ps) >= 0 {
            assert(spec_probe_of(ps[first_invalid(ps)]) is Some);
        }
    }
    if current.len() > 0 {
        let ghost sealed_before = batches@;
        let last = current;
        batches.push(last);
        proof {
            assert(batches@.map_values(|b: Vec<u8>| b@) =~= sealed_before.map_values(
                |b: Vec<u8>| b@,
            ).push(last@));
            sealed_before.map_values(|b: Vec<u8>| b@).lemma_flatten_push(last@);
            assert(batches@.map_values(|b: Vec<u8>| b@).flatten() =~= spec_records(ps).flatten());
        }
    }
    Ok(batches)
}

/// The big-endian value of the first `k` bytes.
pub open spec fn partial_be(s: Seq<u8>, k: int) -> u128
    decreases k,
{
    if k <= 0 {
        0
    } else {
        (partial_be(s, k - 1) << 8) | (s[k - 1] as u128)
    }
}

proof fn lemma_partial_be_full(s: Seq<u8>)
    requires
        s.len() == 16,
    ensures
        partial_be(s, 16) == be_u128(s),
{
    let b0 = s[0];
    let b1 = s[1];
    let b2 = s[2];
    let b3 = s[3];
    let b4 = s[4];
    let b5 = s[5];
    let b6 = s[6];
    let b7 = s[7];
    let b8 = s[8];
    let b9 = s[9];
    let b10 = s[10];
    let b11 = s[11];
    let b12 = s[12];
    let b13 = s[13];
    let b14 = s[14];
    let b15 = s[15];
    reveal_with_fuel(partial_be, 17);
    assert(((((((((((((((((((((((((((((((((0u128 << 8) | (b0 as u128)) << 8) | (b1 as u128)) << 8)
        | (b2 as u128)) << 8) | (b3 as u128)) << 8) | (b4 as u128)) << 8) | (b5 as u128)) << 8) | (
    b6 as u128)) << 8) | (b7 as u128)) << 8) | (b8 as u128)) << 8) | (b9 as u128)) << 8) | (
    b10 as u128)) << 8) | (b11 as u128)) << 8) | (b12 as u128)) << 8) | (b13 as u128)) << 8) | (
    b14 as u128)) << 8) | (b15 as u128)) == (((b0 as u128) << 120) | ((b1 as u128) << 112) | ((
    b2 as u128) << 104) | ((b3 as u128) << 96) | ((b4 as u128) << 88) | ((b5 as u128) << 80) | ((
    b6 as u128) << 72) | ((b7 as u128) << 64) | ((b8 as u128) << 56) | ((b9 as u128) << 48) | ((
    b10 as u128) << 40) | ((b11 as u128) << 32) | ((b12 as u128) << 24) | ((b13 as u128) << 16) | ((
    b14 as u128) << 8) | (b15 as u128))) by (bit_vector);
}

} // verus!
