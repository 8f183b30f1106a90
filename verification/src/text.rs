//! Character-level helpers shared by the parsers and formatters:
//! decimal and hexadecimal digits, splitting on a separator, and the
//! conversion between ASCII byte buffers and `String`.
use vstd::prelude::*;

verus! {

pub open spec fn is_dec_digit(c: char) -> bool {
    '0' <= c && c <= '9'
}

pub open spec fn dec_val(c: char) -> int {
    c as int - '0' as int
}

pub open spec fn is_hex_digit(c: char) -> bool {
    ('0' <= c && c <= '9') || ('a' <= c && c <= 'f') || ('A' <= c && c <= 'F')
}

pub open spec fn hex_val(c: char) -> int {
    if '0' <= c && c <= '9' {
        c as int - '0' as int
    } else if 'a' <= c && c <= 'f' {
        c as int - 'a' as int + 10
    } else {
        c as int - 'A' as int + 10
    }
}

/// The lowercase hexadecimal digit for a value in 0..16.
pub open spec fn hex_digit(v: int) -> char {
    if v < 10 {
        (('0' as int + v) as u8) as char
    } else {
        (('a' as int + v - 10) as u8) as char
    }
}

/// Lowercase hex text of a byte sequence, two digits per byte.
pub open spec fn hex_of(b: Seq<u8>) -> Seq<char>
    decreases b.len(),
{
    if b.len() == 0 {
        Seq::empty()
    } else {
        seq![hex_digit(b[0] as int / 16), hex_digit(b[0] as int % 16)] + hex_of(b.drop_first())
    }
}

pub proof fn lemma_hex_of_len(b: Seq<u8>)
    ensures
        hex_of(b).len() == 2 * b.len(),
    decreases b.len(),
{
    if b.len() > 0 {
        lemma_hex_of_len(b.drop_first());
    }
}

/// Decimal text of a natural number, most significant digit first.
pub open spec fn dec_text(n: int) -> Seq<char>
    decreases n,
{
    if n < 10 {
        seq![hex_digit(if n < 0 { 0 } else { n })]
    } else {
        dec_text(n / 10) + seq![hex_digit(n % 10)]
    }
}

/// Lowercase hexadecimal text of a natural number, no leading zeros.
pub open spec fn hex_text(n: int) -> Seq<char>
    decreases n,
{
    if n < 16 {
        seq![hex_digit(if n < 0 { 0 } else { n })]
    } else {
        hex_text(n / 16) + seq![hex_digit(n % 16)]
    }
}

/// The segments of `s` between occurrences of `sep`; always at least one.
pub open spec fn split_on(s: Seq<char>, sep: char) -> Seq<Seq<char>>
    decreases s.len(),
{
    if s.len() == 0 {
        seq![Seq::empty()]
    } else if s[0] == sep {
        seq![Seq::<char>::empty()] + split_on(s.drop_first(), sep)
    } else {
        let r = split_on(s.drop_first(), sep);
        seq![seq![s[0]] + r[0]] + r.drop_first()
    }
}

pub proof fn lemma_split_on_len(s: Seq<char>, sep: char)
    ensures
        split_on(s, sep).len() >= 1,
    decreases s.len(),
{
    if s.len() > 0 {
        lemma_split_on_len(s.drop_first(), sep);
    }
}

/// When no separator occurs in `s` at all, the split is `s` itself.
pub proof fn lemma_split_whole(s: Seq<char>, sep: char)
    requires
        forall|j: int| 0 <= j < s.len() ==> s[j] != sep,
    ensures
        split_on(s, sep) == seq![s],
    decreases s.len(),
{
    if s.len() == 0 {
        assert(s =~= Seq::<char>::empty());
    } else {
        assert forall|j: int| 0 <= j < s.drop_first().len() implies s.drop_first()[j] != sep by {
            assert(s.drop_first()[j] == s[j + 1]);
        }
        lemma_split_whole(s.drop_first(), sep);
        assert(seq![s[0]] + s.drop_first() =~= s);
        assert(split_on(s, sep) =~= seq![s]);
    }
}

/// A character at or below 0x7f is recovered from its low byte.
pub proof fn lemma_ascii_char_byte(ch: char, b: u8)
    requires
        ch <= '\u{7f}',
        ch as u8 == b,
    ensures
        b < 128,
        ch == b as char,
{
}

/// A known split step: when no separator occurs before `i` and `s[i]` is the
/// separator, the split is the prefix plus the split of the remainder.
pub proof fn lemma_split_step(s: Seq<char>, sep: char, i: int)
    requires
        0 <= i < s.len(),
        s[i] == sep,
        forall|j: int| 0 <= j < i ==> s[j] != sep,
    ensures
        split_on(s, sep) == seq![s.take(i)] + split_on(s.skip(i + 1), sep),
    decreases i,
{
    lemma_split_on_len(s.drop_first(), sep);
    if i == 0 {
        assert(s.drop_first() =~= s.skip(1));
        assert(s.take(0) =~= Seq::<char>::empty());
        assert(split_on(s, sep) =~= seq![s.take(0)] + split_on(s.skip(1), sep));
    } else {
        let d = s.drop_first();
        assert forall|j: int| 0 <= j < i - 1 implies d[j] != sep by {
            assert(d[j] == s[j + 1]);
        }
        assert(d[i - 1] == s[i]);
        lemma_split_step(d, sep, i - 1);
        let r = split_on(d, sep);
        assert(r == seq![d.take(i - 1)] + split_on(d.skip(i), sep));
        assert(r[0] == d.take(i - 1));
        assert(seq![s[0]] + d.take(i - 1) =~= s.take(i));
        assert(r.drop_first() =~= split_on(d.skip(i), sep));
        assert(d.skip(i) =~= s.skip(i + 1));
        assert(split_on(s, sep) =~= seq![s.take(i)] + split_on(s.skip(i + 1), sep));
    }
}

pub open spec fn char_lt_128(c: char) -> bool {
    '\0' <= c && c <= '\u{7f}'
}

/// All characters of `s` are ASCII.
pub open spec fn all_ascii(s: Seq<char>) -> bool {
    forall|i: int| 0 <= i < s.len() ==> char_lt_128(#[trigger] s[i])
}

/// View of an ASCII byte buffer as the characters it spells.
pub open spec fn chars_of_bytes(b: Seq<u8>) -> Seq<char> {
    b.map_values(|x: u8| x as char)
}

pub proof fn lemma_chars_push(b: Seq<u8>, x: u8)
    ensures
        chars_of_bytes(b.push(x)) == chars_of_bytes(b).push(x as char),
{
    assert(chars_of_bytes(b.push(x)) =~= chars_of_bytes(b).push(x as char));
}

/// Relies on `String::from_utf8`: a buffer of bytes below 0x80 is valid
/// UTF-8 and decodes to exactly those characters.
#[verifier::external_body]
pub fn ascii_string(b: Vec<u8>) -> (r: String)
    requires
        forall|i: int| 0 <= i < b@.len() ==> b@[i] < 128,
    ensures
        r@ == chars_of_bytes(b@),
{
    match String::from_utf8(b) {
        Ok(s) => s,
        Err(_) => String::new(),
    }
}

/// Splits an ASCII string on a separator byte, handing back the segments.
pub fn split_str(s: &str, sep: u8) -> (r: Vec<Vec<u8>>)
    requires
        vstd::string::is_ascii(s),
        sep < 128,
    ensures
        r@.map_values(|seg: Vec<u8>| chars_of_bytes(seg@)) == split_on(s@, sep as char),
        forall|k: int| 0 <= k < r@.len() ==> forall|j: int|
            0 <= j < (#[trigger] r@[k])@.len() ==> (#[trigger] r@[k]@[j]) < 128,
{
    let ghost sepc = sep as char;
    let n = s.unicode_len();
    let mut r: Vec<Vec<u8>> = Vec::new();
    let mut cur: Vec<u8> = Vec::new();
    let mut i: usize = 0;
    let ghost mut start: int = 0;
    proof {
        assert(s@.skip(0) == s@);
        assert(chars_of_bytes(cur@) =~= s@.subrange(0, 0));
    }
    while i < n
        invariant
            n == s@.len(),
            vstd::string::is_ascii(s),
            sep < 128,
            sepc == sep as char,
            i <= n,
            0 <= start <= i,
            forall|j: int| 0 <= j < cur@.len() ==> (#[trigger] cur@[j]) < 128,
            forall|k: int| 0 <= k < r@.len() ==> forall|j: int|
                0 <= j < (#[trigger] r@[k])@.len() ==> (#[trigger] r@[k]@[j]) < 128,
            chars_of_bytes(cur@) == s@.subrange(start, i as int),
            forall|j: int| start <= j < i ==> s@[j] != sepc,
            split_on(s@, sepc) == r@.map_values(|seg: Vec<u8>| chars_of_bytes(seg@)) + split_on(
                s@.skip(start),
                sepc,
            ),
        decreases n - i,
    {
        let c = s.get_ascii(i);
        proof {
            assert(s@[i as int] <= '\u{7f}');
            lemma_ascii_char_byte(s@[i as int], c);
        }
        if c == sep {
            proof {
                let rest = s@.skip(start);
                assert forall|j: int| 0 <= j < i - start implies rest[j] != sepc by {
                    assert(rest[j] == s@[start + j]);
                }
                assert(rest[i - start] == s@[start + (i - start)]);
                lemma_split_step(rest, sepc, i - start);
                assert(rest.take(i - start) =~= s@.subrange(start, i as int));
                assert(rest.skip(i - start + 1) =~= s@.skip(i + 1));
            }
            r.push(cur);
            cur = Vec::new();
            proof {
                start = i + 1;
                let m1 = r@.map_values(|seg: Vec<u8>| chars_of_bytes(seg@));
                assert(m1 =~= m1.drop_last().push(chars_of_bytes(r@.last()@)));
                assert(chars_of_bytes(cur@) =~= s@.subrange(start, i + 1));
                assert(split_on(s@, sepc) =~= m1 + split_on(s@.skip(start), sepc));
            }
        } else {
            let ghost prev = cur@;
            cur.push(c);
            proof {
                assert(cur@ == prev.push(c));
                assert(chars_of_bytes(prev) == s@.subrange(start, i as int));
                assert(chars_of_bytes(prev).len() == prev.len());
                assert(prev.len() == i - start);
                assert forall|j: int| 0 <= j < cur@.len() implies #[trigger] chars_of_bytes(
                    cur@,
                )[j] == s@.subrange(start, i + 1)[j] by {
                    assert(chars_of_bytes(cur@)[j] == cur@[j] as char);
                    if j < prev.len() {
                        assert(cur@[j] == prev[j]);
                        assert(chars_of_bytes(prev)[j] == prev[j] as char);
                        assert(s@.subrange(start, i as int)[j] == s@[start + j]);
                    }
                }
                assert(chars_of_bytes(cur@) =~= s@.subrange(start, i + 1));
            }
        }
        i += 1;
    }
    proof {
        let rest = s@.skip(start);
        assert forall|j: int| 0 <= j < rest.len() implies rest[j] != sepc by {
            assert(rest[j] == s@[start + j]);
        }
        lemma_split_whole(rest, sepc);
        assert(rest =~= s@.subrange(start, n as int));
    }
    r.push(cur);
    proof {
        let m1 = r@.map_values(|seg: Vec<u8>| chars_of_bytes(seg@));
        assert(m1 =~= m1.drop_last().push(chars_of_bytes(r@.last()@)));
        assert(split_on(s@, sepc) =~= r@.map_values(|seg: Vec<u8>| chars_of_bytes(seg@)));
    }
    r
}

} // verus!
