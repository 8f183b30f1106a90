//! User identity: the stable hash of a subject and the deterministic
//! 32-bit tag candidate derived from it.
use crate::text::{chars_of_bytes, hex_of, hex_val, is_hex_digit, lemma_hex_of_len};
use crate::wrappers::{sha256, sha256_of};
use vstd::prelude::*;
use vstd::string::StringSliceAdditionalSpecFns;

verus! {

/// The smallest tag a user may be assigned.
pub const MIN_USER_TAG: u32 = 1000;

/// The largest tag a user may be assigned.
pub const MAX_USER_TAG: u32 = 0xFFFF_FF00;

/// The lowercase hex text of the subject's SHA-256 digest.
pub open spec fn spec_user_hash(subject_bytes: Seq<u8>) -> Seq<char> {
    hex_of(sha256_of(subject_bytes))
}

/// Computes the stable hash under which a user is stored: the SHA-256 of
/// the subject, as 64 lowercase hex characters.
pub fn hash_user_identifier(user_id: &str) -> (r: String)
    ensures
        r@ == spec_user_hash(user_id.spec_bytes()),
        r@.len() == 64,
        vstd::string::string_is_ascii(&r),
{
    let digest = sha256(user_id);
    let ghost dv = digest@;
    let mut out: Vec<u8> = Vec::new();
    let mut i: usize = 0;
    proof {
        assert(dv.skip(0) == dv);
        lemma_hex_of_len(dv);
    }
    while i < digest.len()
        invariant
            dv == digest@,
            dv.len() == 32,
            i <= 32,
            forall|j: int| 0 <= j < out@.len() ==> (#[trigger] out@[j]) < 128,
            hex_of(dv) == chars_of_bytes(out@) + hex_of(dv.skip(i as int)),
            out@.len() == 2 * i,
        decreases 32 - i,
    {
        let b = digest[i];
        let ghost mid0 = out@;
        out.push(hex_byte(b / 16));
        let ghost mid1 = out@;
        out.push(hex_byte(b % 16));
        proof {
            crate::text::lemma_chars_push(mid0, hex_byte_ghost(b / 16));
            crate::text::lemma_chars_push(mid1, hex_byte_ghost(b % 16));
            let rest = dv.skip(i as int);
            assert(rest[0] == dv[i as int]);
            assert(rest.drop_first() =~= dv.skip(i + 1));
            assert(hex_of(rest) == seq![
                crate::text::hex_digit(dv[i as int] as int / 16),
                crate::text::hex_digit(dv[i as int] as int % 16),
            ] + hex_of(dv.skip(i + 1)));
            assert(hex_of(dv) =~= chars_of_bytes(out@) + hex_of(dv.skip(i + 1)));
        }
        i += 1;
    }
    proof {
        assert(dv.skip(32) =~= Seq::<u8>::empty());
        assert(hex_of(dv) =~= chars_of_bytes(out@));
    }
    let r = crate::text::ascii_string(out);
    proof {
        assert forall|j: int| 0 <= j < r@.len() implies '\0' <= #[trigger] r@[j] <= '\u{7f}' by {
            assert(r@[j] == out@[j] as char);
        }
    }
    r
}

fn hex_byte(d: u8) -> (r: u8)
    requires
        d < 16,
    ensures
        r < 128,
        r as char == crate::text::hex_digit(d as int),
        r == hex_byte_ghost(d),
{
    if d < 10 {
        48 + d
    } else {
        87 + d
    }
}

pub open spec fn hex_byte_ghost(d: u8) -> u8 {
    if d < 10 {
        (48 + d) as u8
    } else {
        (87 + d) as u8
    }
}

/// The value of the first eight hex characters, when all eight are digits.
pub open spec fn first8_hex(s: Seq<char>) -> Option<int> {
    if s.len() >= 8 && (forall|i: int| 0 <= i < 8 ==> is_hex_digit(#[trigger] s[i])) {
        Some(
            hex_val(s[0]) * 0x10000000 + hex_val(s[1]) * 0x1000000 + hex_val(s[2]) * 0x100000
                + hex_val(s[3]) * 0x10000 + hex_val(s[4]) * 0x1000 + hex_val(s[5]) * 0x100
                + hex_val(s[6]) * 0x10 + hex_val(s[7]),
        )
    } else {
        None
    }
}

/// Brings an arbitrary 32-bit value into the tag range: in-range values
/// pass through, anything else is folded in by remainder above the floor.
pub open spec fn clamp_tag(h: int) -> u32 {
    if h < MIN_USER_TAG || h > MAX_USER_TAG {
        (MIN_USER_TAG + (h % (MAX_USER_TAG - MIN_USER_TAG))) as u32
    } else {
        h as u32
    }
}

/// The deterministic tag candidate for a user hash: its first 32 bits,
/// brought into the valid range.
pub open spec fn spec_deterministic_tag(s: Seq<char>) -> u32 {
    match first8_hex(s) {
        Some(v) => clamp_tag(v),
        None => MIN_USER_TAG,
    }
}

/// Derives the deterministic tag candidate from a user hash string.
pub fn generate_deterministic_user_id(user_hash: &str) -> (r: u32)
    requires
        user_hash@.len() >= 8,
        vstd::string::is_ascii(user_hash),
    ensures
        r == spec_deterministic_tag(user_hash@),
        MIN_USER_TAG <= r <= MAX_USER_TAG,
{
    let ghost s = user_hash@;
    let mut v: u32 = 0;
    let mut i: usize = 0;
    let mut ok = true;
    while i < 8
        invariant
            s == user_hash@,
            user_hash@.len() >= 8,
            vstd::string::is_ascii(user_hash),
            i <= 8,
            ok ==> forall|j: int| 0 <= j < i ==> is_hex_digit(#[trigger] s[j]),
            !ok ==> exists|j: int| 0 <= j < i && !is_hex_digit(#[trigger] s[j]),
            ok ==> {
                &&& (i == 0 ==> v == 0)
                &&& (i == 1 ==> v == hex_val(s[0]))
                &&& (i == 2 ==> v == hex_val(s[0]) * 0x10 + hex_val(s[1]))
                &&& (i == 3 ==> v == hex_val(s[0]) * 0x100 + hex_val(s[1]) * 0x10 + hex_val(s[2]))
                &&& (i == 4 ==> v == hex_val(s[0]) * 0x1000 + hex_val(s[1]) * 0x100 + hex_val(s[2])
                    * 0x10 + hex_val(s[3]))
                &&& (i == 5 ==> v == hex_val(s[0]) * 0x10000 + hex_val(s[1]) * 0x1000 + hex_val(
                    s[2],
                ) * 0x100 + hex_val(s[3]) * 0x10 + hex_val(s[4]))
                &&& (i == 6 ==> v == hex_val(s[0]) * 0x100000 + hex_val(s[1]) * 0x10000 + hex_val(
                    s[2],
                ) * 0x1000 + hex_val(s[3]) * 0x100 + hex_val(s[4]) * 0x10 + hex_val(s[5]))
                &&& (i == 7 ==> v == hex_val(s[0]) * 0x1000000 + hex_val(s[1]) * 0x100000 + hex_val(
                    s[2],
                ) * 0x10000 + hex_val(s[3]) * 0x1000 + hex_val(s[4]) * 0x100 + hex_val(s[5]) * 0x10
                    + hex_val(s[6]))
                &&& (i == 8 ==> v == hex_val(s[0]) * 0x10000000 + hex_val(s[1]) * 0x1000000
                    + hex_val(s[2]) * 0x100000 + hex_val(s[3]) * 0x10000 + hex_val(s[4]) * 0x1000
                    + hex_val(s[5]) * 0x100 + hex_val(s[6]) * 0x10 + hex_val(s[7]))
                &&& (forall|j: int| 0 <= j < i ==> 0 <= hex_val(#[trigger] s[j]) <= 15)
            },
        decreases 8 - i,
    {
        let b = user_hash.get_ascii(i);
        proof {
            assert(user_hash@[i as int] <= '\u{7f}');
            crate::text::lemma_ascii_char_byte(user_hash@[i as int], b);
        }
        match hex_digit_val_pub(b) {
            Some(d) => {
                if ok {
                    v = v * 16 + (d as u32);
                }
            },
            None => {
                ok = false;
            },
        }
        i += 1;
    }
    let h: u32 = if ok {
        proof {
            assert(first8_hex(user_hash@) == Some(v as int));
        }
        v
    } else {
        proof {
            assert(first8_hex(user_hash@) is None);
        }
        MIN_USER_TAG
    };
    if h < MIN_USER_TAG || h > MAX_USER_TAG {
        MIN_USER_TAG + (h % (MAX_USER_TAG - MIN_USER_TAG))
    } else {
        h
    }
}

fn hex_digit_val_pub(b: u8) -> (r: Option<u8>)
    ensures
        r is Some <==> is_hex_digit(b as char),
        r is Some ==> r->0 == hex_val(b as char) && r->0 <= 15,
{
    if b >= 48 && b <= 57 {
        Some(b - 48)
    } else if b >= 97 && b <= 102 {
        Some(b - 97 + 10)
    } else if b >= 65 && b <= 70 {
        Some(b - 65 + 10)
    } else {
        None
    }
}

} // verus!
