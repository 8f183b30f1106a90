//! Per-user IPv6 sub-prefix arithmetic: carving a 32-bit user tag into an
//! agent's prefix and validating candidate source addresses against it.
use crate::ip::{format_ipv6, ipv6_text, parse_prefix, spec_parse_prefix};
use crate::text::{ascii_string, chars_of_bytes, dec_text, lemma_chars_push};
use vstd::prelude::*;

verus! {

/// An IPv6 address value, held as its 128-bit big-endian integer.
#[derive(PartialEq, Eq, Structural, Clone, Copy, Debug)]
pub struct Ipv6Address {
    pub bits: u128,
}

impl Ipv6Address {
    /// The address with the given eight 16-bit segments.
    pub fn new(a: u16, b: u16, c: u16, d: u16, e: u16, f: u16, g: u16, h: u16) -> (r: Ipv6Address)
        ensures
            r.bits == ((a as u128) << 112) | ((b as u128) << 96) | ((c as u128) << 80) | ((
            d as u128) << 64) | ((e as u128) << 48) | ((f as u128) << 32) | ((g as u128) << 16) | (
            h as u128),
    {
        Ipv6Address {
            bits: ((a as u128) << 112) | ((b as u128) << 96) | ((c as u128) << 80) | ((d as u128)
                << 64) | ((e as u128) << 48) | ((f as u128) << 32) | ((g as u128) << 16) | (
            h as u128),
        }
    }

    pub fn from_bits(bits: u128) -> (r: Ipv6Address)
        ensures
            r.bits == bits,
    {
        Ipv6Address { bits }
    }
}

/// The first `len` bits of `a`, with the rest cleared.
pub open spec fn network_of(a: u128, len: int) -> u128 {
    if len <= 0 {
        0
    } else if len >= 128 {
        a
    } else {
        (a >> ((128 - len) as u128)) << ((128 - len) as u128)
    }
}

/// The network address of the user's sub-prefix: the agent network with the
/// tag spliced in just below it.
pub open spec fn spec_user_prefix_addr(net: u128, len: int, tag: u32) -> u128
    recommends
        0 <= len <= 96,
{
    network_of(net, len) | ((tag as u128) << ((96 - len) as u128))
}

/// Whether `addr` lies within the prefix `net/len`.
pub open spec fn in_prefix(addr: u128, net: u128, len: int) -> bool {
    network_of(addr, len) == network_of(net, len)
}

/// What `calculate_user_prefix_addr` yields on a prefix string.
pub open spec fn spec_calc_user_prefix_addr(s: Seq<char>, tag: u32) -> Option<u128> {
    match spec_parse_prefix(s) {
        Some((net, len)) => if len <= 96 {
            Some(spec_user_prefix_addr(net, len as int, tag))
        } else {
            None
        },
        None => None,
    }
}

/// What `validate_user_ipv6` decides: the candidate address lies within the
/// user's sub-prefix of the agent prefix.
pub open spec fn spec_validate_user_ipv6(ip: u128, prefix: Seq<char>, tag: u32) -> bool {
    match spec_parse_prefix(prefix) {
        Some((net, len)) => len <= 96 && in_prefix(
            ip,
            spec_user_prefix_addr(net, len as int, tag),
            len + 32,
        ),
        None => false,
    }
}

/// What `calculate_user_prefix` yields: the sub-prefix in `address/length`
/// text form.
pub open spec fn spec_calculate_user_prefix(s: Seq<char>, tag: u32) -> Option<Seq<char>> {
    match spec_parse_prefix(s) {
        Some((net, len)) => if len <= 96 {
            Some(
                ipv6_text(spec_user_prefix_addr(net, len as int, tag)) + seq!['/'] + dec_text(
                    len + 32,
                ),
            )
        } else {
            None
        },
        None => None,
    }
}

/// The first `len` bits of `a`, executable form.
pub fn network_bits(a: u128, len: u8) -> (r: u128)
    requires
        len <= 128,
    ensures
        r == network_of(a, len as int),
{
    if len == 0 {
        0
    } else if len == 128 {
        a
    } else {
        let sh: u32 = 128 - (len as u32);
        (a >> (sh as u128)) << (sh as u128)
    }
}

/// The network address of the user's sub-prefix within an agent prefix, or
/// `None` when the prefix is unparseable or too long to host a 32-bit tag.
pub fn calculate_user_prefix_addr(agent_prefix: &str, user_id: u32) -> (r: Option<u128>)
    ensures
        r == spec_calc_user_prefix_addr(agent_prefix@, user_id),
{
    match parse_prefix(agent_prefix) {
        Some((net, len)) => {
            if len > 96 {
                None
            } else {
                let base = network_bits(net, len);
                let sh: u32 = 96 - (len as u32);
                Some(base | ((user_id as u128) << (sh as u128)))
            }
        },
        None => None,
    }
}

/// Whether an IPv6 source address lies within the sub-prefix that the tag
/// carves out of the agent prefix; false when the prefix does not parse or
/// cannot host a 32-bit allocation.
pub fn validate_user_ipv6(user_ip: &Ipv6Address, agent_prefix: &str, user_id: u32) -> (r: bool)
    ensures
        r == spec_validate_user_ipv6(user_ip.bits, agent_prefix@, user_id),
{
    match parse_prefix(agent_prefix) {
        Some((net, len)) => {
            if len > 96 {
                false
            } else {
                let base = network_bits(net, len);
                let sh: u32 = 96 - (len as u32);
                let upa = base | ((user_id as u128) << (sh as u128));
                let got = network_bits(user_ip.bits, len + 32);
                let want = network_bits(upa, len + 32);
                got == want
            }
        },
        None => false,
    }
}

/// The user's sub-prefix within an agent prefix as `address/length` text.
pub fn calculate_user_prefix(agent_prefix: &str, user_id: u32) -> (r: Option<String>)
    ensures
        match r {
            Some(t) => spec_calculate_user_prefix(agent_prefix@, user_id) == Some(t@),
            None => spec_calculate_user_prefix(agent_prefix@, user_id) is None,
        },
{
    match parse_prefix(agent_prefix) {
        Some((net, len)) => {
            if len > 96 {
                None
            } else {
                let base = network_bits(net, len);
                let sh: u32 = 96 - (len as u32);
                let upa = base | ((user_id as u128) << (sh as u128));
                let mut out = format_ipv6(upa);
                let ghost mid = out@;
                out.push(47);
                proof {
                    lemma_chars_push(mid, 47);
                }
                crate::ip::push_dec(&mut out, (len as u64) + 32);
                Some(ascii_string(out))
            }
        },
        None => None,
    }
}

/// The sub-prefix network is its own network address: splicing a 32-bit tag
/// below an agent network of at most 96 bits leaves nothing under the
/// sub-prefix length, so membership in the sub-prefix is exactly equality of
/// networks at `len + 32` bits.
pub proof fn lemma_subprefix_containment(net: u128, len: u8, tag: u32, addr: u128)
    requires
        len <= 96,
    ensures
        in_prefix(addr, spec_user_prefix_addr(net, len as int, tag), len + 32) <==> network_of(
            addr,
            len + 32,
        ) == spec_user_prefix_addr(net, len as int, tag),
{
    let upa = spec_user_prefix_addr(net, len as int, tag);
    assert(network_of(upa, len + 32) == upa) by {
        if len == 0 {
            assert((((0u128 | ((tag as u128) << 96u128)) >> 96u128) << 96u128) == (0u128 | ((
            tag as u128) << 96u128))) by (bit_vector);
        } else {
            let l = len as u128;
            assert((((((net >> ((128 - l) as u128)) << ((128 - l) as u128)) | ((tag as u128) << ((
            96 - l) as u128))) >> ((96 - l) as u128)) << ((96 - l) as u128)) == (((net >> ((128
                - l) as u128)) << ((128 - l) as u128)) | ((tag as u128) << ((96 - l) as u128))))
                by (bit_vector)
                requires
                    1 <= l <= 96,
            ;
        }
    }
}

} // verus!
