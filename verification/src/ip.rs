//! Textual IP addresses: parsing and formatting of IPv4 and IPv6
//! addresses and of IPv6 prefixes in `address/length` form, specified
//! against a character-level grammar.
use crate::text::{
    all_ascii, ascii_string, char_lt_128, chars_of_bytes, dec_text, dec_val, hex_text, hex_val,
    is_dec_digit, is_hex_digit, split_on, split_str,
};
use vstd::prelude::*;

verus! {

// ---------------------------------------------------------------------------
// Octets (IPv4)
// ---------------------------------------------------------------------------
/// A decimal octet: one to three digits, no surplus leading zero, at most 255.
pub open spec fn octet_ok(o: Seq<char>) -> bool {
    &&& 1 <= o.len() <= 3
    &&& (forall|i: int| 0 <= i < o.len() ==> is_dec_digit(#[trigger] o[i]))
    &&& (o.len() > 1 ==> o[0] != '0')
    &&& octet_val(o) <= 255
}

pub open spec fn octet_val(o: Seq<char>) -> int {
    if o.len() == 1 {
        dec_val(o[0])
    } else if o.len() == 2 {
        10 * dec_val(o[0]) + dec_val(o[1])
    } else if o.len() == 3 {
        100 * dec_val(o[0]) + 10 * dec_val(o[1]) + dec_val(o[2])
    } else {
        0
    }
}

/// Four octets separated by dots, as a 32-bit value, big-endian.
pub open spec fn ipv4_chars(s: Seq<char>) -> Option<u32> {
    let p = split_on(s, '.');
    if p.len() == 4 && octet_ok(p[0]) && octet_ok(p[1]) && octet_ok(p[2]) && octet_ok(p[3]) {
        Some(
            (octet_val(p[0]) * 0x1000000 + octet_val(p[1]) * 0x10000 + octet_val(p[2]) * 0x100
                + octet_val(p[3])) as u32,
        )
    } else {
        None
    }
}

/// The IPv4 address denoted by an ASCII dotted-decimal string.
pub open spec fn spec_parse_ipv4(s: Seq<char>) -> Option<u32> {
    if all_ascii(s) {
        ipv4_chars(s)
    } else {
        None
    }
}

// ---------------------------------------------------------------------------
// Hexadecimal groups (IPv6)
// ---------------------------------------------------------------------------
/// A group: one to four hexadecimal digits.
pub open spec fn group_ok(g: Seq<char>) -> bool {
    &&& 1 <= g.len() <= 4
    &&& (forall|i: int| 0 <= i < g.len() ==> is_hex_digit(#[trigger] g[i]))
}

pub open spec fn group_val(g: Seq<char>) -> int {
    if g.len() == 1 {
        hex_val(g[0])
    } else if g.len() == 2 {
        16 * hex_val(g[0]) + hex_val(g[1])
    } else if g.len() == 3 {
        256 * hex_val(g[0]) + 16 * hex_val(g[1]) + hex_val(g[2])
    } else if g.len() == 4 {
        4096 * hex_val(g[0]) + 256 * hex_val(g[1]) + 16 * hex_val(g[2]) + hex_val(g[3])
    } else {
        0
    }
}

/// How one colon-separated segment of an IPv6 literal reads.
#[derive(PartialEq, Eq, Structural, Clone, Copy, Debug)]
pub enum Segment {
    Gap,
    Group(u16),
    Dotted(u32),
    Bad,
}

pub open spec fn seg_item(g: Seq<char>) -> Segment {
    if g.len() == 0 {
        Segment::Gap
    } else if group_ok(g) {
        Segment::Group(group_val(g) as u16)
    } else {
        match ipv4_chars(g) {
            Some(v) => Segment::Dotted(v),
            None => Segment::Bad,
        }
    }
}

// ---------------------------------------------------------------------------
// Assembling group sequences into the 128-bit value
// ---------------------------------------------------------------------------
pub open spec fn horner16(g: Seq<u16>) -> int
    decreases g.len(),
{
    if g.len() == 0 {
        0
    } else {
        horner16(g.drop_last()) * 0x10000 + g.last()
    }
}

pub proof fn lemma_horner16_bound(g: Seq<u16>)
    ensures
        0 <= horner16(g),
        horner16(g) < vstd::arithmetic::power2::pow2((16 * g.len()) as nat),
    decreases g.len(),
{
    vstd::arithmetic::power2::lemma_pow2_pos((16 * g.len()) as nat);
    if g.len() > 0 {
        lemma_horner16_bound(g.drop_last());
        vstd::arithmetic::power2::lemma_pow2_adds((16 * (g.len() - 1)) as nat, 16);
        vstd::arithmetic::power2::lemma2_to64();
    }
}

/// `front` groups packed at the top of the address, `back` groups at the
/// bottom, zeros in between.
pub open spec fn assemble(front: Seq<u16>, back: Seq<u16>) -> u128
    recommends
        front.len() + back.len() <= 8,
{
    (if front.len() == 0 {
        0u128
    } else {
        (horner16(front) as u128) << ((128 - 16 * front.len()) as u128)
    }) | (horner16(back) as u128)
}

// ---------------------------------------------------------------------------
// Structure of a colon-separated segment list
// ---------------------------------------------------------------------------
pub open spec fn all_group_items(items: Seq<Segment>) -> bool {
    forall|j: int| 0 <= j < items.len() ==> (#[trigger] items[j]) is Group
}

pub open spec fn item_group(it: Segment) -> u16 {
    match it {
        Segment::Group(g) => g,
        _ => 0,
    }
}

pub open spec fn group_vals(items: Seq<Segment>) -> Seq<u16> {
    items.map_values(|it: Segment| item_group(it))
}

/// A run of groups that may end with a dotted IPv4 part (two groups' worth).
pub open spec fn tail_ok(items: Seq<Segment>) -> bool {
    if items.len() == 0 {
        true
    } else {
        all_group_items(items.drop_last()) && (items.last() is Group || items.last() is Dotted)
    }
}

pub open spec fn tail_vals(items: Seq<Segment>) -> Seq<u16> {
    if items.len() == 0 {
        Seq::empty()
    } else {
        group_vals(items.drop_last()) + (match items.last() {
            Segment::Dotted(v) => seq![(v >> 16) as u16, v as u16],
            it => seq![item_group(it)],
        })
    }
}

/// Index of the first `Gap` segment, or -1 when there is none.
pub open spec fn first_gap(items: Seq<Segment>) -> int
    decreases items.len(),
{
    if items.len() == 0 {
        -1
    } else if items[0] is Gap {
        0
    } else {
        let r = first_gap(items.drop_first());
        if r < 0 {
            -1
        } else {
            r + 1
        }
    }
}

pub proof fn lemma_first_gap(items: Seq<Segment>)
    ensures
        first_gap(items) >= 0 ==> {
            &&& first_gap(items) < items.len()
            &&& items[first_gap(items)] is Gap
            &&& forall|j: int| 0 <= j < first_gap(items) ==> !((#[trigger] items[j]) is Gap)
        },
        first_gap(items) < 0 ==> forall|j: int|
            0 <= j < items.len() ==> !((#[trigger] items[j]) is Gap),
    decreases items.len(),
{
    if items.len() > 0 && !(items[0] is Gap) {
        let d = items.drop_first();
        lemma_first_gap(d);
        if first_gap(d) >= 0 {
            assert(items[first_gap(items)] == d[first_gap(d)]);
            assert forall|j: int| 0 <= j < first_gap(items) implies !((#[trigger] items[j]) is Gap) by {
                if j > 0 {
                    assert(d[j - 1] == items[j]);
                }
            }
        } else {
            assert forall|j: int| 0 <= j < items.len() implies !((#[trigger] items[j]) is Gap) by {
                if j > 0 {
                    assert(d[j - 1] == items[j]);
                }
            }
        }
    }
}

/// The value denoted by a segment list, mirroring the textual forms: a
/// full list of eight groups, a leading, trailing or inner `::` gap, or
/// the bare `::`.
pub open spec fn parse_items(items: Seq<Segment>) -> Option<u128> {
    let n = items.len();
    if n >= 3 && items[0] is Gap {
        if !(items[1] is Gap) {
            None
        } else if n == 3 && items[2] is Gap {
            Some(0u128)
        } else if tail_ok(items.skip(2)) && tail_vals(items.skip(2)).len() <= 7 && !(items[n
            - 1] is Gap) {
            Some(assemble(Seq::empty(), tail_vals(items.skip(2))))
        } else {
            None
        }
    } else if n >= 3 && items[n - 1] is Gap {
        if !(items[n - 2] is Gap) {
            None
        } else if all_group_items(items.take(n - 2)) && n - 2 <= 7 && first_gap(
            items.take(n - 2),
        ) < 0 {
            Some(assemble(group_vals(items.take(n - 2)), Seq::empty()))
        } else {
            None
        }
    } else {
        let k = first_gap(items);
        if k < 0 {
            if tail_ok(items) && tail_vals(items).len() == 8 {
                Some(assemble(tail_vals(items), Seq::empty()))
            } else {
                None
            }
        } else if 0 < k < n - 1 {
            let front = items.take(k);
            let back = items.skip(k + 1);
            if all_group_items(front) && first_gap(back) < 0 && tail_ok(back) && k + tail_vals(
                back,
            ).len() <= 7 {
                Some(assemble(group_vals(front), tail_vals(back)))
            } else {
                None
            }
        } else {
            None
        }
    }
}

pub open spec fn ipv6_chars(s: Seq<char>) -> Option<u128> {
    parse_items(split_on(s, ':').map_values(|g: Seq<char>| seg_item(g)))
}

/// The IPv6 address denoted by an ASCII literal.
pub open spec fn spec_parse_ipv6(s: Seq<char>) -> Option<u128> {
    if all_ascii(s) {
        ipv6_chars(s)
    } else {
        None
    }
}

/// An IP address: an IPv4 value or an IPv6 value.
#[derive(PartialEq, Eq, Structural, Clone, Copy, Debug)]
pub enum IpAddress {
    V4(u32),
    V6(u128),
}

impl IpAddress {
    /// The address as sixteen bytes; IPv4 is carried in its IPv6-mapped form.
    pub open spec fn spec_mapped_bytes(self) -> Seq<u8> {
        match self {
            IpAddress::V4(v) => v6_bytes(v4_mapped(v)),
            IpAddress::V6(a) => v6_bytes(a),
        }
    }
}

/// The IPv6-mapped form `::ffff:a.b.c.d` of an IPv4 address.
pub open spec fn v4_mapped(v: u32) -> u128 {
    0xffff_0000_0000u128 | (v as u128)
}

/// The sixteen network-order bytes of an IPv6 address value.
pub open spec fn v6_bytes(a: u128) -> Seq<u8> {
    Seq::new(16, |i: int| (a >> (((15 - i) * 8) as u128)) as u8)
}

/// The address denoted by an ASCII literal: the dotted IPv4 form first,
/// then the IPv6 form; no string satisfies both grammars.
pub open spec fn spec_parse_ip(s: Seq<char>) -> Option<IpAddress> {
    match spec_parse_ipv4(s) {
        Some(v) => Some(IpAddress::V4(v)),
        None => match spec_parse_ipv6(s) {
            Some(a) => Some(IpAddress::V6(a)),
            None => None,
        },
    }
}

// ---------------------------------------------------------------------------
// Prefixes
// ---------------------------------------------------------------------------
/// A prefix length: one to three decimal digits, at most 128.
pub open spec fn plen_ok(o: Seq<char>) -> bool {
    &&& 1 <= o.len() <= 3
    &&& (forall|i: int| 0 <= i < o.len() ==> is_dec_digit(#[trigger] o[i]))
    &&& octet_val(o) <= 128
}

/// An IPv6 prefix `address/length`, as the address value and the length.
pub open spec fn spec_parse_prefix(s: Seq<char>) -> Option<(u128, u8)> {
    if all_ascii(s) {
        let p = split_on(s, '/');
        if p.len() == 2 && plen_ok(p[1]) {
            match ipv6_chars(p[0]) {
                Some(a) => Some((a, octet_val(p[1]) as u8)),
                None => None,
            }
        } else {
            None
        }
    } else {
        None
    }
}

// ---------------------------------------------------------------------------
// Executable parsing
// ---------------------------------------------------------------------------
fn dec_digit_val(b: u8) -> (r: Option<u8>)
    ensures
        r is Some <==> is_dec_digit(b as char),
        r is Some ==> r->0 == dec_val(b as char) && r->0 <= 9,
{
    if b >= 48 && b <= 57 {
        Some(b - 48)
    } else {
        None
    }
}

fn hex_digit_val(b: u8) -> (r: Option<u8>)
    ensures
        r is Some <==> is_hex_digit(b as char),
        r is Some ==> r->0 == hex_val(b as char) && r->0 <= 15,
{
    if b >= 48 && b <= 57 {
        Some(b - 48)
    } else if b >= 97 && b <= 102 {
        Some(b - 97 + 10)
    } else if b >= 65 && b <= 70 {
        Some(b - 65 + 10)
    } else {
        None
    }
}

/// One decimal octet from a byte segment.
fn parse_octet(seg: &Vec<u8>) -> (r: Option<u8>)
    requires
        forall|j: int| 0 <= j < seg@.len() ==> (#[trigger] seg@[j]) < 128,
    ensures
        r is Some <==> octet_ok(chars_of_bytes(seg@)),
        r is Some ==> r->0 == octet_val(chars_of_bytes(seg@)),
{
    let ghost o = chars_of_bytes(seg@);
    proof {
        assert(o.len() == seg@.len());
        assert(forall|j: int| 0 <= j < seg@.len() ==> o[j] == (#[trigger] seg@[j]) as char);
    }
    if seg.len() < 1 || seg.len() > 3 {
        return None;
    }
    if seg.len() > 1 && seg[0] == 48 {
        return None;
    }
    let mut v: u32 = 0;
    let mut j: usize = 0;
    while j < seg.len()
        invariant
            seg@.len() <= 3,
            j <= seg@.len(),
            forall|i: int| 0 <= i < seg@.len() ==> (#[trigger] seg@[i]) < 128,
            o == chars_of_bytes(seg@),
            forall|i: int| 0 <= i < j ==> is_dec_digit(#[trigger] o[i]),
            j == 0 ==> v == 0,
            j == 1 ==> v == dec_val(o[0]),
            j == 2 ==> v == 10 * dec_val(o[0]) + dec_val(o[1]),
            j == 3 ==> v == 100 * dec_val(o[0]) + 10 * dec_val(o[1]) + dec_val(o[2]),
            v < 1000,
        decreases seg@.len() - j,
    {
        match dec_digit_val(seg[j]) {
            Some(d) => {
                proof {
                    assert(o[j as int] == seg@[j as int] as char);
                }
                v = v * 10 + (d as u32);
            },
            None => {
                proof {
                    assert(o[j as int] == seg@[j as int] as char);
                }
                return None;
            },
        }
        j += 1;
    }
    if v <= 255 {
        proof {
            assert(o.len() == 1 ==> v == octet_val(o));
            assert(o.len() == 2 ==> v == octet_val(o));
            assert(o.len() == 3 ==> v == octet_val(o));
        }
        Some(v as u8)
    } else {
        None
    }
}

/// Dotted-decimal IPv4 from an ASCII string.
pub fn parse_ipv4(s: &str) -> (r: Option<u32>)
    ensures
        r == spec_parse_ipv4(s@),
{
    if !s.is_ascii() {
        proof {
            let chars = s@;
            assert(!all_ascii(chars)) by {
                assert(vstd::string::is_ascii(s) <==> vstd::utf8::is_ascii_chars(chars));
                if all_ascii(chars) {
                    assert forall|i: int| 0 <= i < chars.len() implies '\0' <= #[trigger] chars[i]
                        <= '\u{7f}' by {
                        assert(char_lt_128(chars[i]));
                    }
                }
            }
        }
        return None;
    }
    proof {
        assert forall|i: int| 0 <= i < s@.len() implies char_lt_128(#[trigger] s@[i]) by {
            assert('\0' <= s@[i] <= '\u{7f}');
        }
    }
    let parts = split_str(s, 46);
    proof {
        assert(parts@.map_values(|seg: Vec<u8>| chars_of_bytes(seg@)).len() == parts@.len());
    }
    if parts.len() != 4 {
        return None;
    }
    let ghost p = split_on(s@, '.');
    proof {
        assert(forall|k: int|
            0 <= k < 4 ==> p[k] == chars_of_bytes((#[trigger] parts@[k])@));
    }
    let a = parse_octet(&parts[0]);
    let b = parse_octet(&parts[1]);
    let c = parse_octet(&parts[2]);
    let d = parse_octet(&parts[3]);
    match (a, b, c, d) {
        (Some(a), Some(b), Some(c), Some(d)) => Some(
            (a as u32) * 0x1000000 + (b as u32) * 0x10000 + (c as u32) * 0x100 + (d as u32),
        ),
        _ => None,
    }
}

/// One hexadecimal group from a byte segment.
fn parse_group(seg: &Vec<u8>) -> (r: Option<u16>)
    requires
        forall|j: int| 0 <= j < seg@.len() ==> (#[trigger] seg@[j]) < 128,
    ensures
        r is Some <==> group_ok(chars_of_bytes(seg@)),
        r is Some ==> r->0 == group_val(chars_of_bytes(seg@)),
{
    let ghost o = chars_of_bytes(seg@);
    proof {
        assert(o.len() == seg@.len());
        assert(forall|j: int| 0 <= j < seg@.len() ==> o[j] == (#[trigger] seg@[j]) as char);
    }
    if seg.len() < 1 || seg.len() > 4 {
        return None;
    }
    let mut v: u32 = 0;
    let mut j: usize = 0;
    while j < seg.len()
        invariant
            1 <= seg@.len() <= 4,
            j <= seg@.len(),
            forall|i: int| 0 <= i < seg@.len() ==> (#[trigger] seg@[i]) < 128,
            o == chars_of_bytes(seg@),
            forall|i: int| 0 <= i < j ==> is_hex_digit(#[trigger] o[i]),
            j == 0 ==> v == 0,
            j == 1 ==> v == hex_val(o[0]),
            j == 2 ==> v == 16 * hex_val(o[0]) + hex_val(o[1]),
            j == 3 ==> v == 256 * hex_val(o[0]) + 16 * hex_val(o[1]) + hex_val(o[2]),
            j == 4 ==> v == group_val(o),
            v < 0x10000,
        decreases seg@.len() - j,
    {
        match hex_digit_val(seg[j]) {
            Some(d) => {
                proof {
                    assert(o[j as int] == seg@[j as int] as char);
                }
                v = v * 16 + (d as u32);
            },
            None => {
                proof {
                    assert(o[j as int] == seg@[j as int] as char);
                }
                return None;
            },
        }
        j += 1;
    }
    proof {
        assert(o.len() == 1 ==> v == group_val(o));
        assert(o.len() == 2 ==> v == group_val(o));
        assert(o.len() == 3 ==> v == group_val(o));
        assert(group_val(o) < 0x10000);
    }
    Some(v as u16)
}

/// Reads one colon-separated segment.
fn parse_segment(seg: &Vec<u8>) -> (r: Segment)
    requires
        forall|j: int| 0 <= j < seg@.len() ==> (#[trigger] seg@[j]) < 128,
    ensures
        r == seg_item(chars_of_bytes(seg@)),
{
    let ghost o = chars_of_bytes(seg@);
    if seg.len() == 0 {
        proof {
            assert(o.len() == 0);
        }
        return Segment::Gap;
    }
    if let Some(g) = parse_group(seg) {
        return Segment::Group(g);
    }
    let text = ascii_string(seg.clone());
    proof {
        assert(text@ == o);
        assert forall|i: int| 0 <= i < o.len() implies char_lt_128(#[trigger] o[i]) by {
            assert(o[i] == seg@[i] as char);
        }
        assert(all_ascii(text@));
    }
    match parse_ipv4(text.as_str()) {
        Some(v) => Segment::Dotted(v),
        None => Segment::Bad,
    }
}

/// Packs `front` and `back` groups into the 128-bit address value.
fn assemble_groups(front: &Vec<u16>, back: &Vec<u16>) -> (r: u128)
    requires
        front@.len() + back@.len() <= 8,
    ensures
        r == assemble(front@, back@),
{
    let fv = horner_exec(front);
    let bv = horner_exec(back);
    let hi: u128 = if front.len() == 0 {
        0
    } else {
        let shift: u32 = 128 - 16 * (front.len() as u32);
        fv << (shift as u128)
    };
    hi | bv
}

fn horner_exec(g: &Vec<u16>) -> (r: u128)
    requires
        g@.len() <= 8,
    ensures
        r == horner16(g@),
        r == horner16(g@) as u128,
{
    let mut v: u128 = 0;
    let mut j: usize = 0;
    proof {
        vstd::arithmetic::power2::lemma2_to64();
        assert(g@.take(0) =~= Seq::<u16>::empty());
    }
    while j < g.len()
        invariant
            g@.len() <= 8,
            j <= g@.len(),
            v == horner16(g@.take(j as int)),
            0 <= horner16(g@.take(j as int)) < vstd::arithmetic::power2::pow2((16 * j) as nat),
        decreases g@.len() - j,
    {
        proof {
            lemma_horner16_bound(g@.take(j as int));
            vstd::arithmetic::power2::lemma_pow2_adds((16 * j) as nat, 16);
            vstd::arithmetic::power2::lemma2_to64();
            if 16 * (j + 1) < 128 {
                vstd::arithmetic::power2::lemma_pow2_strictly_increases((16 * (j + 1)) as nat, 128);
            }
            vstd::arithmetic::power2::lemma_pow2_adds(64, 64);
            vstd::arithmetic::power2::lemma2_to64_rest();
            assert(g@.take(j + 1).drop_last() =~= g@.take(j as int));
            assert(g@.take(j + 1).last() == g@[j as int]);
        }
        v = v * 0x10000 + (g[j] as u128);
        j += 1;
    }
    proof {
        assert(g@.take(g@.len() as int) =~= g@);
    }
    v
}

/// An IPv6 literal from an ASCII string.
pub fn parse_ipv6(s: &str) -> (r: Option<u128>)
    ensures
        r == spec_parse_ipv6(s@),
{
    if !s.is_ascii() {
        proof {
            if all_ascii(s@) {
                assert forall|i: int| 0 <= i < s@.len() implies '\0' <= #[trigger] s@[i]
                    <= '\u{7f}' by {
                    assert(char_lt_128(s@[i]));
                }
            }
        }
        return None;
    }
    proof {
        assert forall|i: int| 0 <= i < s@.len() implies char_lt_128(#[trigger] s@[i]) by {
            assert('\0' <= s@[i] <= '\u{7f}');
        }
    }
    let segs = split_str(s, 58);
    let ghost specsegs = split_on(s@, ':');
    let ghost items_spec = specsegs.map_values(|g: Seq<char>| seg_item(g));
    let mut items: Vec<Segment> = Vec::new();
    let mut idx: usize = 0;
    proof {
        assert(specsegs.len() == segs@.len());
    }
    while idx < segs.len()
        invariant
            specsegs == split_on(s@, ':'),
            items_spec == specsegs.map_values(|g: Seq<char>| seg_item(g)),
            segs@.map_values(|seg: Vec<u8>| chars_of_bytes(seg@)) == specsegs,
            forall|k: int| 0 <= k < segs@.len() ==> forall|j: int|
                0 <= j < (#[trigger] segs@[k])@.len() ==> (#[trigger] segs@[k]@[j]) < 128,
            idx <= segs@.len(),
            items@.len() == idx,
            forall|k: int| 0 <= k < idx ==> items@[k] == items_spec[k],
        decreases segs@.len() - idx,
    {
        proof {
            assert(specsegs[idx as int] == chars_of_bytes(segs@[idx as int]@));
        }
        let it = parse_segment(&segs[idx]);
        items.push(it);
        idx += 1;
    }
    proof {
        assert(items@ =~= items_spec);
    }
    parse_item_list(&items)
}

fn parse_item_list(items: &Vec<Segment>) -> (r: Option<u128>)
    ensures
        r == parse_items(items@),
{
    let n = items.len();
    if n >= 3 && matches!(items[0], Segment::Gap) {
        if !matches!(items[1], Segment::Gap) {
            return None;
        }
        if n == 3 && matches!(items[2], Segment::Gap) {
            return Some(0);
        }
        if matches!(items[n - 1], Segment::Gap) {
            return None;
        }
        match tail_groups(items, 2, n) {
            Some(back) => {
                if back.len() <= 7 {
                    let front: Vec<u16> = Vec::new();
                    proof {
                        assert(front@ =~= Seq::<u16>::empty());
                    }
                    Some(assemble_groups(&front, &back))
                } else {
                    None
                }
            },
            None => None,
        }
    } else if n >= 3 && matches!(items[n - 1], Segment::Gap) {
        if !matches!(items[n - 2], Segment::Gap) {
            return None;
        }
        match front_groups_exec(items, n - 2) {
            Some(front) => {
                if front.len() <= 7 {
                    proof {
                        lemma_first_gap(items@.take(n - 2));
                        assert(all_group_items(items@.take(n - 2)));
                        assert(first_gap(items@.take(n - 2)) < 0);
                    }
                    let back: Vec<u16> = Vec::new();
                    proof {
                        assert(back@ =~= Seq::<u16>::empty());
                    }
                    Some(assemble_groups(&front, &back))
                } else {
                    None
                }
            },
            None => None,
        }
    } else {
        // find the first gap
        let mut k: usize = 0;
        while k < n && !matches!(items[k], Segment::Gap)
            invariant
                n == items@.len(),
                k <= n,
                forall|j: int| 0 <= j < k ==> !((#[trigger] items@[j]) is Gap),
            decreases n - k,
        {
            k += 1;
        }
        proof {
            lemma_first_gap(items@);
        }
        if k == n {
            // no gap at all
            proof {
                assert(first_gap(items@) < 0);
            }
            match tail_groups(items, 0, n) {
                Some(all) => {
                    if all.len() == 8 {
                        proof {
                            assert(items@.skip(0) =~= items@);
                        }
                        let back: Vec<u16> = Vec::new();
                        proof {
                            assert(back@ =~= Seq::<u16>::empty());
                        }
                        Some(assemble_groups(&all, &back))
                    } else {
                        proof {
                            assert(items@.skip(0) =~= items@);
                        }
                        None
                    }
                },
                None => {
                    proof {
                        assert(items@.skip(0) =~= items@);
                    }
                    None
                },
            }
        } else {
            proof {
                assert(first_gap(items@) == k);
            }
            if !(0 < k && k < n - 1) {
                return None;
            }
            let front = match front_groups_exec(items, k) {
                Some(f) => f,
                None => {
                    return None;
                },
            };
            proof {
                lemma_first_gap(items@.take(k as int));
            }
            let mut gap_in_back = false;
            let mut j: usize = k + 1;
            while j < n
                invariant
                    n == items@.len(),
                    k + 1 <= j <= n,
                    gap_in_back <==> exists|i: int|
                        k + 1 <= i < j && (#[trigger] items@[i]) is Gap,
                decreases n - j,
            {
                if matches!(items[j], Segment::Gap) {
                    gap_in_back = true;
                }
                j += 1;
            }
            let ghost back_spec = items@.skip(k + 1);
            proof {
                lemma_first_gap(back_spec);
                assert(forall|i: int|
                    0 <= i < back_spec.len() ==> #[trigger] back_spec[i] == items@[k + 1 + i]);
                if gap_in_back {
                    let i = choose|i: int| k + 1 <= i < n && (#[trigger] items@[i]) is Gap;
                    assert(back_spec[i - k - 1] is Gap);
                    if first_gap(back_spec) < 0 {
                        assert(!(back_spec[i - k - 1] is Gap));
                    }
                } else {
                    if first_gap(back_spec) >= 0 {
                        assert(items@[k + 1 + first_gap(back_spec)] is Gap);
                    }
                }
            }
            if gap_in_back {
                return None;
            }
            match tail_groups(items, k + 1, n) {
                Some(back) => {
                    if k + back.len() <= 7 {
                        Some(assemble_groups(&front, &back))
                    } else {
                        None
                    }
                },
                None => None,
            }
        }
    }
}

/// The groups of `items[from..to]`, where all must be plain groups except
/// that the last may be a dotted IPv4 part.
fn tail_groups(items: &Vec<Segment>, from: usize, to: usize) -> (r: Option<Vec<u16>>)
    requires
        from <= to <= items@.len(),
    ensures
        r is Some <==> tail_ok(items@.subrange(from as int, to as int)),
        r is Some ==> r->0@ == tail_vals(items@.subrange(from as int, to as int)),
{
    let ghost t = items@.subrange(from as int, to as int);
    if from == to {
        proof {
            assert(t.len() == 0);
        }
        return Some(Vec::new());
    }
    let mut out: Vec<u16> = Vec::new();
    let mut j: usize = from;
    while j < to - 1
        invariant
            from <= j <= to - 1,
            to <= items@.len(),
            from < to,
            t == items@.subrange(from as int, to as int),
            forall|i: int| 0 <= i < j - from ==> (#[trigger] t[i]) is Group,
            out@ =~= group_vals(t.take(j - from)),
        decreases to - j,
    {
        match items[j] {
            Segment::Group(g) => {
                out.push(g);
                proof {
                    assert(t[j - from] == items@[j as int]);
                    assert(group_vals(t.take(j + 1 - from)) =~= group_vals(
                        t.take(j - from),
                    ).push(g));
                }
            },
            _ => {
                proof {
                    assert(t[j - from] == items@[j as int]);
                    assert(t.drop_last()[j - from] == t[j - from]);
                }
                return None;
            },
        }
        j += 1;
    }
    proof {
        assert(t.take(to - 1 - from) =~= t.drop_last());
        assert(t.last() == items@[to - 1]);
    }
    match items[to - 1] {
        Segment::Group(g) => {
            out.push(g);
            proof {
                assert(out@ =~= group_vals(t.drop_last()) + seq![item_group(t.last())]);
                assert(forall|i: int|
                    0 <= i < t.drop_last().len() ==> (#[trigger] t.drop_last()[i]) == t[i]);
            }
            Some(out)
        },
        Segment::Dotted(v) => {
            out.push((v >> 16) as u16);
            out.push(v as u16);
            proof {
                assert(out@ =~= group_vals(t.drop_last()) + seq![(v >> 16) as u16, v as u16]);
                assert(forall|i: int|
                    0 <= i < t.drop_last().len() ==> (#[trigger] t.drop_last()[i]) == t[i]);
            }
            Some(out)
        },
        _ => None,
    }
}

/// The group values of `items[0..k]`, all of which must be plain groups.
fn front_groups_exec(items: &Vec<Segment>, k: usize) -> (r: Option<Vec<u16>>)
    requires
        k <= items@.len(),
    ensures
        r is Some <==> all_group_items(items@.take(k as int)),
        r is Some ==> r->0@ == group_vals(items@.take(k as int)),
{
    let ghost t = items@.take(k as int);
    let mut out: Vec<u16> = Vec::new();
    let mut j: usize = 0;
    while j < k
        invariant
            j <= k <= items@.len(),
            t == items@.take(k as int),
            forall|i: int| 0 <= i < j ==> (#[trigger] t[i]) is Group,
            out@ =~= group_vals(t.take(j as int)),
        decreases k - j,
    {
        match items[j] {
            Segment::Group(g) => {
                out.push(g);
                proof {
                    assert(t[j as int] == items@[j as int]);
                    assert(group_vals(t.take(j + 1)) =~= group_vals(t.take(j as int)).push(g));
                }
            },
            _ => {
                proof {
                    assert(t[j as int] == items@[j as int]);
                }
                return None;
            },
        }
        j += 1;
    }
    proof {
        assert(t.take(k as int) =~= t);
    }
    Some(out)
}

/// An IP address literal: IPv4 dotted form or IPv6 form.
pub fn parse_ip(s: &str) -> (r: Option<IpAddress>)
    ensures
        r == spec_parse_ip(s@),
{
    match parse_ipv4(s) {
        Some(v) => Some(IpAddress::V4(v)),
        None => match parse_ipv6(s) {
            Some(a) => Some(IpAddress::V6(a)),
            None => None,
        },
    }
}

/// An IPv6 prefix in `address/length` form.
pub fn parse_prefix(s: &str) -> (r: Option<(u128, u8)>)
    ensures
        r == spec_parse_prefix(s@),
{
    if !s.is_ascii() {
        proof {
            if all_ascii(s@) {
                assert forall|i: int| 0 <= i < s@.len() implies '\0' <= #[trigger] s@[i]
                    <= '\u{7f}' by {
                    assert(char_lt_128(s@[i]));
                }
            }
        }
        return None;
    }
    proof {
        assert forall|i: int| 0 <= i < s@.len() implies char_lt_128(#[trigger] s@[i]) by {
            assert('\0' <= s@[i] <= '\u{7f}');
        }
    }
    let parts = split_str(s, 47);
    let ghost p = split_on(s@, '/');
    proof {
        assert(parts@.map_values(|seg: Vec<u8>| chars_of_bytes(seg@)).len() == parts@.len());
    }
    if parts.len() != 2 {
        return None;
    }
    proof {
        assert(p[0] == chars_of_bytes(parts@[0]@));
        assert(p[1] == chars_of_bytes(parts@[1]@));
    }
    // prefix length: decimal digits, at most three, value at most 128
    let lenseg = &parts[1];
    let ghost lo = chars_of_bytes(lenseg@);
    if lenseg.len() < 1 || lenseg.len() > 3 {
        return None;
    }
    let mut v: u32 = 0;
    let mut j: usize = 0;
    while j < lenseg.len()
        invariant
            1 <= lenseg@.len() <= 3,
            j <= lenseg@.len(),
            forall|i: int| 0 <= i < lenseg@.len() ==> (#[trigger] lenseg@[i]) < 128,
            lo == chars_of_bytes(lenseg@),
            all_ascii(s@),
            split_on(s@, '/').len() == 2,
            lo == split_on(s@, '/')[1],
            forall|i: int| 0 <= i < j ==> is_dec_digit(#[trigger] lo[i]),
            j == 0 ==> v == 0,
            j == 1 ==> v == dec_val(lo[0]),
            j == 2 ==> v == 10 * dec_val(lo[0]) + dec_val(lo[1]),
            j == 3 ==> v == 100 * dec_val(lo[0]) + 10 * dec_val(lo[1]) + dec_val(lo[2]),
            v < 1000,
        decreases lenseg@.len() - j,
    {
        match dec_digit_val(lenseg[j]) {
            Some(d) => {
                proof {
                    assert(lo[j as int] == lenseg@[j as int] as char);
                }
                v = v * 10 + (d as u32);
            },
            None => {
                proof {
                    assert(lo.len() == lenseg@.len());
                    assert(lo[j as int] == lenseg@[j as int] as char);
                    assert(!is_dec_digit(lo[j as int]));
                    assert(!plen_ok(lo));
                    assert(spec_parse_prefix(s@) is None);
                }
                return None;
            },
        }
        j += 1;
    }
    proof {
        assert(lo.len() == 1 ==> v == octet_val(lo));
        assert(lo.len() == 2 ==> v == octet_val(lo));
        assert(lo.len() == 3 ==> v == octet_val(lo));
    }
    if v > 128 {
        return None;
    }
    // address part
    let addrseg = &parts[0];
    let text = ascii_string(addrseg.clone());
    proof {
        assert(text@ == p[0]);
        assert forall|i: int| 0 <= i < text@.len() implies char_lt_128(#[trigger] text@[i]) by {
            assert(text@[i] == addrseg@[i] as char);
        }
    }
    match parse_ipv6_ascii(&text) {
        Some(a) => Some((a, v as u8)),
        None => None,
    }
}

// ---------------------------------------------------------------------------
// Formatting
// ---------------------------------------------------------------------------
/// The sixteen-bit segment `j` (0 through 7) of an address value.
pub open spec fn seg_at(a: u128, j: int) -> u16 {
    (a >> ((112 - 16 * j) as u128)) as u16
}

pub open spec fn segs_of(a: u128) -> Seq<u16> {
    Seq::new(8, |j: int| seg_at(a, j))
}

/// Length of the run of zero segments starting at `i`.
pub open spec fn run_len_at(s: Seq<u16>, i: int) -> int
    decreases s.len() - i,
{
    if i < 0 || i >= s.len() || s[i] != 0 {
        0
    } else {
        1 + run_len_at(s, i + 1)
    }
}

/// The leftmost start of a longest zero-segment run in `s[i..]`; `s.len()`
/// when the tail is empty.
pub open spec fn best_run_start(s: Seq<u16>, i: int) -> int
    decreases s.len() - i,
{
    if i >= s.len() {
        i
    } else {
        let rest = best_run_start(s, i + 1);
        if run_len_at(s, i) >= run_len_at(s, rest) {
            i
        } else {
            rest
        }
    }
}

/// Hexadecimal groups joined by single colons.
pub open spec fn join_groups(s: Seq<u16>) -> Seq<char>
    decreases s.len(),
{
    if s.len() == 0 {
        Seq::empty()
    } else if s.len() == 1 {
        hex_text(s[0] as int)
    } else {
        join_groups(s.drop_last()) + seq![':'] + hex_text(s.last() as int)
    }
}

/// Dotted-decimal text of an IPv4 value.
pub open spec fn ipv4_text(v: u32) -> Seq<char> {
    dec_text((v >> 24) as int) + seq!['.'] + dec_text(((v >> 16) & 0xff) as int) + seq!['.']
        + dec_text(((v >> 8) & 0xff) as int) + seq!['.'] + dec_text((v & 0xff) as int)
}

/// Canonical text of an IPv6 value: the IPv4-mapped form is shown dotted,
/// otherwise the leftmost longest run of two or more zero groups is
/// compressed to `::`.
pub open spec fn ipv6_text(a: u128) -> Seq<char> {
    if (a >> 32) == 0xffff {
        seq![':', ':', 'f', 'f', 'f', 'f', ':'] + ipv4_text(a as u32)
    } else {
        let s = segs_of(a);
        let b = best_run_start(s, 0);
        let l = run_len_at(s, b);
        if l < 2 {
            join_groups(s)
        } else {
            join_groups(s.take(b)) + seq![':', ':'] + join_groups(s.skip(b + l))
        }
    }
}

/// Text of either kind of address.
pub open spec fn ip_text(ip: IpAddress) -> Seq<char> {
    match ip {
        IpAddress::V4(v) => ipv4_text(v),
        IpAddress::V6(a) => ipv6_text(a),
    }
}

/// The byte of a lowercase hexadecimal digit.
fn hex_digit_byte(d: u8) -> (r: u8)
    requires
        d < 16,
    ensures
        r < 128,
        r as char == crate::text::hex_digit(d as int),
{
    if d < 10 {
        48 + d
    } else {
        87 + d
    }
}

/// Appends the lowercase hexadecimal text of `v`, without leading zeros.
fn push_hex(out: &mut Vec<u8>, v: u16)
    requires
        forall|i: int| 0 <= i < old(out)@.len() ==> (#[trigger] old(out)@[i]) < 128,
    ensures
        forall|i: int| 0 <= i < final(out)@.len() ==> (#[trigger] final(out)@[i]) < 128,
        chars_of_bytes(final(out)@) == chars_of_bytes(old(out)@) + hex_text(v as int),
    decreases v,
{
    if v < 16 {
        let ghost before = out@;
        out.push(hex_digit_byte(v as u8));
        proof {
            crate::text::lemma_chars_push(before, (out@.last()));
            assert(chars_of_bytes(out@) =~= chars_of_bytes(before) + hex_text(v as int));
        }
    } else {
        push_hex(out, v / 16);
        let ghost mid = out@;
        out.push(hex_digit_byte((v % 16) as u8));
        proof {
            crate::text::lemma_chars_push(mid, (out@.last()));
            assert(chars_of_bytes(out@) =~= chars_of_bytes(old(out)@) + hex_text(v as int));
        }
    }
}

/// Appends the decimal text of `v`.
pub fn push_dec(out: &mut Vec<u8>, v: u64)
    requires
        forall|i: int| 0 <= i < old(out)@.len() ==> (#[trigger] old(out)@[i]) < 128,
    ensures
        forall|i: int| 0 <= i < final(out)@.len() ==> (#[trigger] final(out)@[i]) < 128,
        chars_of_bytes(final(out)@) == chars_of_bytes(old(out)@) + dec_text(v as int),
    decreases v,
{
    if v < 10 {
        let ghost before = out@;
        out.push(48 + (v as u8));
        proof {
            crate::text::lemma_chars_push(before, (out@.last()));
            assert(chars_of_bytes(out@) =~= chars_of_bytes(before) + dec_text(v as int));
        }
    } else {
        push_dec(out, v / 10);
        let ghost mid = out@;
        out.push(48 + ((v % 10) as u8));
        proof {
            crate::text::lemma_chars_push(mid, (out@.last()));
            assert(chars_of_bytes(out@) =~= chars_of_bytes(old(out)@) + dec_text(v as int));
        }
    }
}

/// Appends dotted-decimal IPv4 text.
fn push_ipv4(out: &mut Vec<u8>, v: u32)
    requires
        forall|i: int| 0 <= i < old(out)@.len() ==> (#[trigger] old(out)@[i]) < 128,
    ensures
        forall|i: int| 0 <= i < final(out)@.len() ==> (#[trigger] final(out)@[i]) < 128,
        chars_of_bytes(final(out)@) == chars_of_bytes(old(out)@) + ipv4_text(v),
{
    push_dec(out, (v >> 24) as u64);
    let ghost s1 = out@;
    out.push(46);
    proof {
        crate::text::lemma_chars_push(s1, 46);
    }
    push_dec(out, ((v >> 16) & 0xff) as u64);
    let ghost s2 = out@;
    out.push(46);
    proof {
        crate::text::lemma_chars_push(s2, 46);
    }
    push_dec(out, ((v >> 8) & 0xff) as u64);
    let ghost s3 = out@;
    out.push(46);
    proof {
        crate::text::lemma_chars_push(s3, 46);
    }
    push_dec(out, (v & 0xff) as u64);
    proof {
        assert(chars_of_bytes(out@) =~= chars_of_bytes(old(out)@) + ipv4_text(v));
    }
}

/// Appends the groups `g[from..to]` joined by colons.
fn push_groups(out: &mut Vec<u8>, g: &Vec<u16>, from: usize, to: usize)
    requires
        from <= to <= g@.len(),
        forall|i: int| 0 <= i < old(out)@.len() ==> (#[trigger] old(out)@[i]) < 128,
    ensures
        forall|i: int| 0 <= i < final(out)@.len() ==> (#[trigger] final(out)@[i]) < 128,
        chars_of_bytes(final(out)@) == chars_of_bytes(old(out)@) + join_groups(
            g@.subrange(from as int, to as int),
        ),
{
    let ghost base = out@;
    let ghost t = g@.subrange(from as int, to as int);
    let mut j = from;
    proof {
        assert(t.take(0) =~= Seq::<u16>::empty());
    }
    while j < to
        invariant
            from <= j <= to <= g@.len(),
            t == g@.subrange(from as int, to as int),
            base == old(out)@,
            forall|i: int| 0 <= i < out@.len() ==> (#[trigger] out@[i]) < 128,
            chars_of_bytes(out@) == chars_of_bytes(base) + join_groups(t.take(j - from)),
        decreases to - j,
    {
        if j > from {
            let ghost mid = out@;
            out.push(58);
            proof {
                crate::text::lemma_chars_push(mid, 58);
            }
        }
        push_hex(out, g[j]);
        proof {
            assert(t.take(j + 1 - from).drop_last() =~= t.take(j - from));
            assert(t.take(j + 1 - from).last() == g@[j as int]);
            assert(chars_of_bytes(out@) =~= chars_of_bytes(base) + join_groups(
                t.take(j + 1 - from),
            ));
        }
        j += 1;
    }
    proof {
        assert(t.take(to - from) =~= t);
    }
}

/// The canonical text of an IPv6 address value, as ASCII bytes.
pub fn format_ipv6(a: u128) -> (r: Vec<u8>)
    ensures
        forall|i: int| 0 <= i < r@.len() ==> (#[trigger] r@[i]) < 128,
        chars_of_bytes(r@) == ipv6_text(a),
{
    let mut out: Vec<u8> = Vec::new();
    if (a >> 32) == 0xffff {
        out.push(58);
        out.push(58);
        out.push(102);
        out.push(102);
        out.push(102);
        out.push(102);
        out.push(58);
        proof {
            assert(chars_of_bytes(out@) =~= seq![':', ':', 'f', 'f', 'f', 'f', ':']);
        }
        push_ipv4(&mut out, a as u32);
        return out;
    }
    // the eight groups
    let mut segs: Vec<u16> = Vec::new();
    let mut j: usize = 0;
    while j < 8
        invariant
            j <= 8,
            segs@.len() == j,
            forall|k: int| 0 <= k < j ==> segs@[k] == seg_at(a, k),
        decreases 8 - j,
    {
        let shift: u32 = 112 - 16 * (j as u32);
        segs.push((a >> (shift as u128)) as u16);
        j += 1;
    }
    proof {
        assert(segs@ =~= segs_of(a));
    }
    // zero runs: runs[i] is the length of the zero run starting at i
    let mut runs: Vec<u8> = Vec::new();
    let mut k: usize = 0;
    while k < 9
        invariant
            k <= 9,
            runs@.len() == k,
            forall|m: int| 0 <= m < k ==> runs@[m] == 0,
        decreases 9 - k,
    {
        runs.push(0);
        k += 1;
    }
    proof {
        assert(run_len_at(segs@, 8) == 0);
    }
    let mut i: usize = 8;
    while i > 0
        invariant
            i <= 8,
            runs@.len() == 9,
            segs@ == segs_of(a),
            forall|k: int| i <= k <= 8 ==> runs@[k] == run_len_at(segs@, k),
        decreases i,
    {
        i -= 1;
        if segs[i] != 0 {
            runs.set(i, 0);
        } else {
            let nxt = runs[i + 1];
            proof {
                assert(runs@[i + 1] == run_len_at(segs@, i + 1));
                assert(run_len_at(segs@, i + 1) <= 8 - (i + 1)) by {
                    lemma_run_len_bound(segs@, i + 1);
                }
            }
            runs.set(i, 1 + nxt);
        }
    }
    // leftmost longest run
    let mut best: usize = 8;
    let mut i2: usize = 8;
    while i2 > 0
        invariant
            i2 <= 8,
            best == best_run_start(segs@, i2 as int),
            best <= 8,
            runs@.len() == 9,
            segs@ == segs_of(a),
            forall|k: int| 0 <= k <= 8 ==> runs@[k] == run_len_at(segs@, k),
        decreases i2,
    {
        i2 -= 1;
        if runs[i2] >= runs[best] {
            best = i2;
        }
    }
    let blen = runs[best];
    proof {
        assert(run_len_at(segs@, best as int) == blen);
    }
    if blen < 2 {
        push_groups(&mut out, &segs, 0, 8);
        proof {
            assert(segs@.subrange(0, 8) =~= segs_of(a));
            assert(chars_of_bytes(out@) =~= ipv6_text(a));
        }
        out
    } else {
        proof {
            lemma_run_len_bound(segs@, best as int);
        }
        push_groups(&mut out, &segs, 0, best);
        let ghost m1 = out@;
        out.push(58);
        out.push(58);
        proof {
            crate::text::lemma_chars_push(m1, 58);
            crate::text::lemma_chars_push(m1.push(58), 58);
        }
        push_groups(&mut out, &segs, best + (blen as usize), 8);
        proof {
            assert(segs@.subrange(0, best as int) =~= segs_of(a).take(best as int));
            assert(segs@.subrange(best + blen, 8) =~= segs_of(a).skip(best + blen));
            assert(chars_of_bytes(out@) =~= ipv6_text(a));
        }
        out
    }
}

proof fn lemma_run_len_bound(s: Seq<u16>, i: int)
    requires
        0 <= i,
    ensures
        0 <= run_len_at(s, i) <= s.len() - i || run_len_at(s, i) == 0,
    decreases s.len() - i,
{
    if !(i >= s.len() || s[i] != 0) {
        lemma_run_len_bound(s, i + 1);
    }
}

/// The canonical text of an IPv6 address value.
pub fn ipv6_to_string(a: u128) -> (r: String)
    ensures
        r@ == ipv6_text(a),
{
    let b = format_ipv6(a);
    ascii_string(b)
}

/// Dotted-decimal text of an IPv4 address value.
pub fn ipv4_to_string(v: u32) -> (r: String)
    ensures
        r@ == ipv4_text(v),
{
    let mut b: Vec<u8> = Vec::new();
    push_ipv4(&mut b, v);
    ascii_string(b)
}

/// Text of either kind of address.
pub fn ip_to_string(ip: &IpAddress) -> (r: String)
    ensures
        r@ == ip_text(*ip),
{
    match ip {
        IpAddress::V4(v) => ipv4_to_string(*v),
        IpAddress::V6(a) => ipv6_to_string(*a),
    }
}

/// The IPv6 literal value of an ASCII string already known to be ASCII.
fn parse_ipv6_ascii(s: &String) -> (r: Option<u128>)
    requires
        all_ascii(s@),
    ensures
        r == ipv6_chars(s@),
{
    proof {
        assert forall|i: int| 0 <= i < s@.len() implies '\0' <= #[trigger] s@[i] <= '\u{7f}' by {
            assert(char_lt_128(s@[i]));
        }
    }
    let r = parse_ipv6(s.as_str());
    proof {
        assert(spec_parse_ipv6(s@) == ipv6_chars(s@));
    }
    r
}

} // verus!
