//! Byte-level text helpers: URL percent-decoding and percent-encoding.
//!
//! Routes are handled as their UTF-8 bytes. Results that are handed back as
//! `String`s go through [`string_from_bytes`], whose outcome is named by
//! [`utf8_lossy`].

use vstd::prelude::*;
use crate::urlparts::ascii_lower;
use vstd::utf8::{
    decode_utf8, encode_utf8, encode_utf8_decode_utf8, encode_utf8_valid_utf8, is_ascii_chars,
    is_ascii_chars_encode_utf8, valid_utf8, encode_scalar,
};

verus! {

/// What `String::from_utf8_lossy` makes of a byte sequence.
pub uninterp spec fn utf8_lossy(bytes: Seq<u8>) -> Seq<char>;

/// Builds a `String` from bytes with `String::from_utf8_lossy`.
///
/// Trusted: the result is named by `utf8_lossy` of the bytes; for valid
/// UTF-8 the standard library documents that the decoded text is returned
/// unchanged. What replacement characters appear for invalid input is left
/// unsaid.
#[verifier::external_body]
pub(crate) fn string_from_bytes(bytes: &[u8]) -> (s: String)
    ensures
        s@ == utf8_lossy(bytes@),
        valid_utf8(bytes@) ==> s@ == decode_utf8(bytes@),
{
    String::from_utf8_lossy(bytes).into_owned()
}

/// The UTF-8 bytes of a string's text.
pub open spec fn str_bytes(s: Seq<char>) -> Seq<u8> {
    encode_utf8(s)
}

/// Value of an ASCII hexadecimal digit.
pub open spec fn hex_digit(byte: u8) -> Option<u8> {
    if 0x30 <= byte <= 0x39 {
        Some((byte - 0x30) as u8)
    } else if 0x61 <= byte <= 0x66 {
        Some((byte - 0x61 + 10) as u8)
    } else if 0x41 <= byte <= 0x46 {
        Some((byte - 0x41 + 10) as u8)
    } else {
        None
    }
}

/// Returns the value of a hexadecimal digit byte, `None` for other bytes.
pub fn hex_value(byte: u8) -> (r: Option<u8>)
    ensures
        r == hex_digit(byte),
        r matches Some(v) ==> v < 16,
{
    if 0x30 <= byte && byte <= 0x39 {
        Some(byte - 0x30)
    } else if 0x61 <= byte && byte <= 0x66 {
        Some(byte - 0x61 + 10)
    } else if 0x41 <= byte && byte <= 0x46 {
        Some(byte - 0x41 + 10)
    } else {
        None
    }
}

/// Whether a `%` escape with two hex digits starts at `i`.
pub open spec fn escape_at(b: Seq<u8>, i: int) -> bool {
    &&& 0 <= i
    &&& b[i] == 0x25u8
    &&& i + 2 < b.len()
    &&& hex_digit(b[i + 1]) is Some
    &&& hex_digit(b[i + 2]) is Some
}

/// Percent-decoding of `b` from position `i` on: `%XY` escapes become the
/// byte `0xXY`, `+` becomes a space when `plus_as_space`, other bytes stay.
pub open spec fn decode_from(b: Seq<u8>, plus_as_space: bool, i: int) -> Seq<u8>
    decreases b.len() - i,
{
    if i < 0 || i >= b.len() {
        Seq::empty()
    } else if escape_at(b, i) {
        seq![(hex_digit(b[i + 1]).unwrap() * 16 + hex_digit(b[i + 2]).unwrap()) as u8]
            + decode_from(b, plus_as_space, i + 3)
    } else if b[i] == 0x2bu8 && plus_as_space {
        seq![0x20u8] + decode_from(b, plus_as_space, i + 1)
    } else {
        seq![b[i]] + decode_from(b, plus_as_space, i + 1)
    }
}

/// Percent-decoding of a whole byte sequence.
pub open spec fn percent_decode(b: Seq<u8>, plus_as_space: bool) -> Seq<u8> {
    decode_from(b, plus_as_space, 0)
}

/// Percent-decodes `input` byte by byte.
pub fn decode_component_bytes(input: &[u8], plus_as_space: bool) -> (out: Vec<u8>)
    ensures
        out@ == percent_decode(input@, plus_as_space),
{
    let n = input.len();
    let mut out: Vec<u8> = Vec::new();
    let mut index: usize = 0;
    while index < n
        invariant
            n == input@.len(),
            index <= n,
            percent_decode(input@, plus_as_space) == out@ + decode_from(input@, plus_as_space, index as int),
        decreases n - index,
    {
        let byte = input[index];
        if byte == 0x25 && n - index > 2 {
            let high = hex_value(input[index + 1]);
            let low = hex_value(input[index + 2]);
            if let (Some(h), Some(l)) = (high, low) {
                let ghost before = out@;
                out.push(h * 16 + l);
                assert(out@ + decode_from(input@, plus_as_space, index + 3) =~= before + decode_from(input@, plus_as_space, index as int));
                index = index + 3;
                continue;
            }
        }
        let ghost before = out@;
        if byte == 0x2b && plus_as_space {
            out.push(0x20);
        } else {
            out.push(byte);
        }
        assert(out@ + decode_from(input@, plus_as_space, index + 1) =~= before + decode_from(input@, plus_as_space, index as int));
        index = index + 1;
    }
    out
}

/// The text of bytes: their UTF-8 decoding when they are valid UTF-8,
/// otherwise what `String::from_utf8_lossy` makes of them.
pub open spec fn text_of(bytes: Seq<u8>) -> Seq<char> {
    if valid_utf8(bytes) { decode_utf8(bytes) } else { utf8_lossy(bytes) }
}

/// The text that percent-decoding `input` gives.
pub open spec fn decoded_text(input: Seq<char>, plus_as_space: bool) -> Seq<char> {
    text_of(percent_decode(str_bytes(input), plus_as_space))
}

/// Percent-decodes a URL component; `plus_as_space` turns `+` into a space
/// (form encoding). Invalid UTF-8 in the decoded bytes is replaced.
pub fn decode_url_component(input: &str, plus_as_space: bool) -> (s: String)
    ensures
        s@ == utf8_lossy(percent_decode(str_bytes(input@), plus_as_space)),
        s@ == decoded_text(input@, plus_as_space),
{
    let bytes = decode_component_bytes(input.as_bytes(), plus_as_space);
    string_from_bytes(bytes.as_slice())
}


/// ASCII letters and digits.
pub open spec fn is_ascii_alnum(byte: u8) -> bool {
    (0x30 <= byte <= 0x39) || (0x41 <= byte <= 0x5a) || (0x61 <= byte <= 0x7a)
}

/// Bytes that URL encoding leaves as they are: `A-Z a-z 0-9 - . _ ~`.
pub open spec fn is_unreserved(byte: u8) -> bool {
    is_ascii_alnum(byte) || byte == 0x2du8 || byte == 0x2eu8 || byte == 0x5fu8 || byte == 0x7eu8
}

/// Bytes that may also stay unescaped in a fragment:
/// `/ ? & = : @ ! $ ' ( ) * , ;`.
pub open spec fn is_fragment_extra(byte: u8) -> bool {
    byte == 0x2fu8 || byte == 0x3fu8 || byte == 0x26u8 || byte == 0x3du8 || byte == 0x3au8
        || byte == 0x40u8 || byte == 0x21u8 || byte == 0x24u8 || byte == 0x27u8 || byte == 0x28u8
        || byte == 0x29u8 || byte == 0x2au8 || byte == 0x2cu8 || byte == 0x3bu8
}

/// Upper-case hexadecimal digit for a value below 16.
pub open spec fn hex_upper(d: u8) -> u8 {
    if d < 10 { (0x30 + d) as u8 } else { (0x41 + d - 10) as u8 }
}

/// The encoding of one byte: itself when safe, `+` for a space when
/// `space_as_plus`, and `%XY` (upper-case hex) otherwise.
pub open spec fn encode_byte(byte: u8, space_as_plus: bool, fragment_safe: bool) -> Seq<u8> {
    if is_unreserved(byte) || (fragment_safe && is_fragment_extra(byte)) {
        seq![byte]
    } else if byte == 0x20u8 && space_as_plus {
        seq![0x2bu8]
    } else {
        seq![0x25u8, hex_upper(byte / 16), hex_upper(byte % 16)]
    }
}

/// Percent-encoding of a byte sequence, byte by byte.
pub open spec fn percent_encode(b: Seq<u8>, space_as_plus: bool, fragment_safe: bool) -> Seq<u8>
    decreases b.len(),
{
    if b.len() == 0 {
        Seq::empty()
    } else {
        percent_encode(b.drop_last(), space_as_plus, fragment_safe)
            + encode_byte(b.last(), space_as_plus, fragment_safe)
    }
}

fn hex_upper_digit(d: u8) -> (r: u8)
    requires
        d < 16,
    ensures
        r == hex_upper(d),
{
    if d < 10 { 0x30 + d } else { 0x41 + d - 10 }
}

/// Appends the percent-encoding of `input` to `out`.
pub fn encode_component_into(out: &mut Vec<u8>, input: &[u8], space_as_plus: bool, fragment_safe: bool)
    ensures
        final(out)@ == old(out)@ + percent_encode(input@, space_as_plus, fragment_safe),
{
    let n = input.len();
    let mut index: usize = 0;
    while index < n
        invariant
            n == input@.len(),
            index <= n,
            out@ == old(out)@ + percent_encode(input@.take(index as int), space_as_plus, fragment_safe),
        decreases n - index,
    {
        let byte = input[index];
        let unreserved = (0x30 <= byte && byte <= 0x39) || (0x41 <= byte && byte <= 0x5a)
            || (0x61 <= byte && byte <= 0x7a) || byte == 0x2d || byte == 0x2e || byte == 0x5f
            || byte == 0x7e;
        let extra = fragment_safe && (byte == 0x2f || byte == 0x3f || byte == 0x26 || byte == 0x3d
            || byte == 0x3a || byte == 0x40 || byte == 0x21 || byte == 0x24 || byte == 0x27
            || byte == 0x28 || byte == 0x29 || byte == 0x2a || byte == 0x2c || byte == 0x3b);
        if unreserved || extra {
            out.push(byte);
        } else if byte == 0x20 && space_as_plus {
            out.push(0x2b);
        } else {
            out.push(0x25);
            out.push(hex_upper_digit(byte / 16));
            out.push(hex_upper_digit(byte % 16));
        }
        assert(input@.take(index + 1).drop_last() =~= input@.take(index as int));
        index = index + 1;
    }
    assert(input@.take(n as int) =~= input@);
}

/// Bytes below 0x80, read one character each.
pub open spec fn ascii_text(b: Seq<u8>) -> Seq<char> {
    b.map_values(|x: u8| x as char)
}

/// Whether every byte is below 0x80.
pub open spec fn all_ascii(b: Seq<u8>) -> bool {
    forall|i: int| 0 <= i < b.len() ==> #[trigger] b[i] < 0x80
}

/// The text of a percent-encoding: it is all ASCII.
pub open spec fn encoded_text(input: Seq<char>, space_as_plus: bool, fragment_safe: bool) -> Seq<char> {
    ascii_text(percent_encode(str_bytes(input), space_as_plus, fragment_safe))
}

/// ASCII bytes are valid UTF-8, and they decode to one character each.
pub proof fn lemma_ascii_text(b: Seq<u8>)
    requires
        all_ascii(b),
    ensures
        str_bytes(ascii_text(b)) == b,
        valid_utf8(b),
        decode_utf8(b) == ascii_text(b),
{
    let chars = ascii_text(b);
    assert(is_ascii_chars(chars)) by {
        assert forall|i: int| 0 <= i < chars.len() implies '\0' <= #[trigger] chars[i] <= '\u{7f}' by {
            assert(b[i] < 0x80);
        }
    }
    is_ascii_chars_encode_utf8(chars);
    assert(encode_utf8(chars) =~= b) by {
        assert forall|i: int| 0 <= i < b.len() implies encode_utf8(chars)[i] == b[i] by {
            assert(chars[i] as u8 == encode_utf8(chars)[i]);
            assert(b[i] < 0x80);
            assert(chars[i] == b[i] as char);
        }
    }
    encode_utf8_valid_utf8(chars);
    encode_utf8_decode_utf8(chars);
}

/// Percent-encoding writes only ASCII bytes.
pub proof fn lemma_percent_encode_ascii(b: Seq<u8>, space_as_plus: bool, fragment_safe: bool)
    ensures
        all_ascii(percent_encode(b, space_as_plus, fragment_safe)),
    decreases b.len(),
{
    if b.len() > 0 {
        lemma_percent_encode_ascii(b.drop_last(), space_as_plus, fragment_safe);
        let x = b.last();
        let e = encode_byte(x, space_as_plus, fragment_safe);
        let r = percent_encode(b.drop_last(), space_as_plus, fragment_safe);
        assert(all_ascii(e)) by {
            assert(x / 16 < 16);
            assert(x % 16 < 16);
        }
        assert forall|i: int| 0 <= i < (r + e).len() implies #[trigger] (r + e)[i] < 0x80 by {
            if i < r.len() {
                assert((r + e)[i] == r[i]);
            } else {
                assert((r + e)[i] == e[i - r.len()]);
            }
        }
    }
}

/// Percent-encodes `input`. `space_as_plus` writes spaces as `+` (query
/// form encoding); `fragment_safe` keeps the characters a fragment allows.
pub fn encode_url_component(input: &str, space_as_plus: bool, fragment_safe: bool) -> (s: String)
    ensures
        s@ == encoded_text(input@, space_as_plus, fragment_safe),
        str_bytes(s@) == percent_encode(str_bytes(input@), space_as_plus, fragment_safe),
{
    let mut out: Vec<u8> = Vec::new();
    encode_component_into(&mut out, input.as_bytes(), space_as_plus, fragment_safe);
    proof {
        lemma_percent_encode_ascii(str_bytes(input@), space_as_plus, fragment_safe);
        assert(out@ =~= percent_encode(str_bytes(input@), space_as_plus, fragment_safe));
        lemma_ascii_text(out@);
    }
    string_from_bytes(out.as_slice())
}

/// Encodes a query key or value (spaces become `+`).
pub fn encode_query_component(input: &str) -> (s: String)
    ensures
        s@ == encoded_text(input@, true, false),
{
    encode_url_component(input, true, false)
}

/// Encodes one path segment (a `/` is escaped).
pub fn encode_path_segment(input: &str) -> (s: String)
    ensures
        s@ == encoded_text(input@, false, false),
{
    encode_url_component(input, false, false)
}

/// Encodes a fragment (keeps `/ ? & = : @ ! $ ' ( ) * , ;`).
pub fn encode_fragment_component(input: &str) -> (s: String)
    ensures
        s@ == encoded_text(input@, false, true),
{
    encode_url_component(input, false, true)
}

pub proof fn lemma_encode_concat(x: Seq<u8>, y: Seq<u8>, space_as_plus: bool, fragment_safe: bool)
    ensures
        percent_encode(x + y, space_as_plus, fragment_safe)
            == percent_encode(x, space_as_plus, fragment_safe) + percent_encode(y, space_as_plus, fragment_safe),
    decreases y.len(),
{
    if y.len() == 0 {
        assert(x + y =~= x);
    } else {
        assert((x + y).drop_last() =~= x + y.drop_last());
        assert((x + y).last() == y.last());
        lemma_encode_concat(x, y.drop_last(), space_as_plus, fragment_safe);
    }
}

proof fn lemma_decode_shift(x: Seq<u8>, r: Seq<u8>, plus_as_space: bool, j: int)
    requires
        0 <= j <= r.len(),
    ensures
        decode_from(x + r, plus_as_space, x.len() + j) == decode_from(r, plus_as_space, j),
    decreases r.len() - j,
{
    let b = x + r;
    let i = x.len() + j;
    if j < r.len() {
        assert(b[i] == r[j]);
        if i + 2 < b.len() {
            assert(b[i + 1] == r[j + 1]);
            assert(b[i + 2] == r[j + 2]);
        }
        assert(escape_at(b, i) == escape_at(r, j));
        if escape_at(r, j) {
            lemma_decode_shift(x, r, plus_as_space, j + 3);
        } else {
            lemma_decode_shift(x, r, plus_as_space, j + 1);
        }
    }
}

proof fn lemma_hex_upper_digit(d: u8)
    requires
        d < 16,
    ensures
        hex_digit(hex_upper(d)) == Some(d),
{
}

proof fn lemma_decode_chunk(c: u8, r: Seq<u8>, space_as_plus: bool, fragment_safe: bool, plus_as_space: bool)
    requires
        space_as_plus ==> plus_as_space,
    ensures
        decode_from(encode_byte(c, space_as_plus, fragment_safe) + r, plus_as_space, 0)
            == seq![c] + decode_from(r, plus_as_space, 0),
{
    let e = encode_byte(c, space_as_plus, fragment_safe);
    let b = e + r;
    lemma_decode_shift(e, r, plus_as_space, 0);
    assert(b[0] == e[0]);
    if e.len() == 3 {
        assert(b[1] == e[1] && b[2] == e[2]);
        lemma_hex_upper_digit(c / 16);
        lemma_hex_upper_digit(c % 16);
        assert(escape_at(b, 0));
        assert(((c / 16) * 16 + c % 16) as u8 == c);
    } else {
        assert(!escape_at(b, 0));
    }
}

/// Percent-decoding undoes percent-encoding, provided a space encoded as `+`
/// is decoded as a space.
pub proof fn law_decode_undoes_encode(b: Seq<u8>, space_as_plus: bool, fragment_safe: bool, plus_as_space: bool)
    requires
        space_as_plus ==> plus_as_space,
    ensures
        percent_decode(percent_encode(b, space_as_plus, fragment_safe), plus_as_space) == b,
    decreases b.len(),
{
    if b.len() == 0 {
        assert(percent_encode(b, space_as_plus, fragment_safe) =~= Seq::<u8>::empty());
    } else {
        let head = seq![b[0]];
        let rest = b.drop_first();
        assert(head + rest =~= b);
        lemma_encode_concat(head, rest, space_as_plus, fragment_safe);
        assert(head.drop_last() =~= Seq::<u8>::empty());
        assert(head.last() == b[0]);
        assert(percent_encode(head.drop_last(), space_as_plus, fragment_safe) =~= Seq::<u8>::empty());
        assert(Seq::<u8>::empty() + encode_byte(b[0], space_as_plus, fragment_safe) =~= encode_byte(b[0], space_as_plus, fragment_safe));
        assert(percent_encode(head, space_as_plus, fragment_safe) =~= encode_byte(b[0], space_as_plus, fragment_safe));
        lemma_decode_chunk(b[0], percent_encode(rest, space_as_plus, fragment_safe), space_as_plus, fragment_safe, plus_as_space);
        law_decode_undoes_encode(rest, space_as_plus, fragment_safe, plus_as_space);
    }
}

/// Decoding the text that encoding gives returns the original text,
/// provided a space encoded as `+` is decoded as a space.
pub proof fn law_decode_undoes_encode_text(s: Seq<char>, space_as_plus: bool, fragment_safe: bool, plus_as_space: bool)
    requires
        space_as_plus ==> plus_as_space,
    ensures
        decoded_text(encoded_text(s, space_as_plus, fragment_safe), plus_as_space) == s,
{
    let e = percent_encode(str_bytes(s), space_as_plus, fragment_safe);
    lemma_percent_encode_ascii(str_bytes(s), space_as_plus, fragment_safe);
    lemma_ascii_text(e);
    law_decode_undoes_encode(str_bytes(s), space_as_plus, fragment_safe, plus_as_space);
    encode_utf8_valid_utf8(s);
    encode_utf8_decode_utf8(s);
}

/// The text that percent-decoding a path-segment encoding of `v` gives
/// back is `v`.
pub proof fn lemma_segment_text_round_trip(v: Seq<char>)
    ensures
        text_of(percent_decode(percent_encode(str_bytes(v), false, false), false)) == v,
{
    law_decode_undoes_encode(str_bytes(v), false, false, false);
    encode_utf8_valid_utf8(v);
    encode_utf8_decode_utf8(v);
}

/// Percent-encoding never shortens.
pub proof fn lemma_percent_encode_len(b: Seq<u8>, space_as_plus: bool, fragment_safe: bool)
    ensures
        percent_encode(b, space_as_plus, fragment_safe).len() >= b.len(),
    decreases b.len(),
{
    if b.len() > 0 {
        lemma_percent_encode_len(b.drop_last(), space_as_plus, fragment_safe);
    }
}

/// A path-segment encoding holds no `/`.
pub proof fn lemma_segment_encoding_has_no_slash(b: Seq<u8>)
    ensures
        forall|i: int| 0 <= i < percent_encode(b, false, false).len() ==> #[trigger] percent_encode(b, false, false)[i] != 0x2fu8,
    decreases b.len(),
{
    if b.len() > 0 {
        lemma_segment_encoding_has_no_slash(b.drop_last());
        let x = b.last();
        let e = encode_byte(x, false, false);
        let r = percent_encode(b.drop_last(), false, false);
        assert forall|i: int| 0 <= i < e.len() implies e[i] != 0x2fu8 by {
            assert(x / 16 < 16);
            assert(x % 16 < 16);
        }
        assert forall|i: int| 0 <= i < (r + e).len() implies #[trigger] (r + e)[i] != 0x2fu8 by {
            if i < r.len() {
                assert((r + e)[i] == r[i]);
            } else {
                assert((r + e)[i] == e[i - r.len()]);
            }
        }
    }
}

/// Non-empty text has non-empty UTF-8 bytes.
pub proof fn lemma_str_bytes_nonempty(v: Seq<char>)
    requires
        v.len() > 0,
    ensures
        str_bytes(v).len() > 0,
{
    assert(encode_utf8(v) == encode_scalar(v[0] as u32) + encode_utf8(v.drop_first()));
}

/// Percent-decoding non-empty bytes gives non-empty bytes.
pub proof fn lemma_percent_decode_nonempty(b: Seq<u8>, plus_as_space: bool)
    requires
        b.len() > 0,
    ensures
        percent_decode(b, plus_as_space).len() > 0,
{
}

/// Valid non-empty UTF-8 decodes to non-empty text.
pub proof fn lemma_decode_nonempty(b: Seq<u8>)
    requires
        b.len() > 0,
        valid_utf8(b),
    ensures
        decode_utf8(b).len() > 0,
{
}

/// Decimal digits of `n`.
pub open spec fn decimal_bytes(n: nat) -> Seq<u8>
    decreases n,
{
    if n < 10 {
        seq![(0x30 + n) as u8]
    } else {
        decimal_bytes(n / 10).push((0x30 + n % 10) as u8)
    }
}

/// Appends the decimal digits of `n`.
pub fn push_decimal(out: &mut Vec<u8>, n: u64)
    ensures
        final(out)@ == old(out)@ + decimal_bytes(n as nat),
    decreases n,
{
    if n < 10 {
        out.push(0x30 + n as u8);
        assert(out@ =~= old(out)@ + decimal_bytes(n as nat));
    } else {
        push_decimal(out, n / 10);
        out.push(0x30 + (n % 10) as u8);
        assert(out@ =~= old(out)@ + decimal_bytes(n as nat));
    }
}

/// Appends every byte of `b`.
pub(crate) fn push_bytes(out: &mut Vec<u8>, b: &[u8])
    ensures
        final(out)@ == old(out)@ + b@,
{
    let mut i: usize = 0;
    while i < b.len()
        invariant
            i <= b@.len(),
            out@ == old(out)@ + b@.subrange(0, i as int),
        decreases b@.len() - i,
    {
        out.push(b[i]);
        assert(b@.subrange(0, i + 1) =~= b@.subrange(0, i as int).push(b@[i as int]));
        i = i + 1;
    }
    assert(b@.subrange(0, b@.len() as int) =~= b@);
}

/// Hexadecimal digits are read regardless of case: every byte has the same
/// digit value as its ASCII lower-case form.
pub proof fn law_hex_digit_ignores_case(c: u8)
    ensures
        hex_digit(ascii_lower(c)) == hex_digit(c),
{
}

/// Every value below 16 is read back from its digit, upper-case and
/// lower-case alike.
pub proof fn law_hex_digit_reads_both_cases(d: u8)
    requires
        d < 16,
    ensures
        hex_digit(hex_upper(d)) == Some(d),
        hex_digit(ascii_lower(hex_upper(d))) == Some(d),
{
}

proof fn lemma_escape_prefix(x: u8, y: u8, rest: Seq<u8>, plus_as_space: bool)
    requires
        hex_digit(x) is Some,
        hex_digit(y) is Some,
    ensures
        percent_decode(seq![0x25u8, x, y] + rest, plus_as_space)
            == seq![(hex_digit(x).unwrap() * 16 + hex_digit(y).unwrap()) as u8] + percent_decode(rest, plus_as_space),
{
    let e = seq![0x25u8, x, y];
    let b = e + rest;
    assert(b[0] == 0x25u8 && b[1] == x && b[2] == y);
    assert(escape_at(b, 0));
    lemma_decode_shift(e, rest, plus_as_space, 0);
}

/// An escape decodes to the same byte whatever the case of its two hex
/// digits: `%xy` followed by anything decodes as `%XY` followed by it.
pub proof fn law_escape_ignores_case(x: u8, y: u8, rest: Seq<u8>, plus_as_space: bool)
    requires
        hex_digit(x) is Some,
        hex_digit(y) is Some,
    ensures
        percent_decode(seq![0x25u8, ascii_lower(x), ascii_lower(y)] + rest, plus_as_space)
            == percent_decode(seq![0x25u8, x, y] + rest, plus_as_space),
{
    law_hex_digit_ignores_case(x);
    law_hex_digit_ignores_case(y);
    lemma_escape_prefix(x, y, rest, plus_as_space);
    lemma_escape_prefix(ascii_lower(x), ascii_lower(y), rest, plus_as_space);
}

/// A lower-case escape `%xy` of any byte decodes to that byte.
pub proof fn law_lower_case_escape_decodes(v: u8, rest: Seq<u8>, plus_as_space: bool)
    ensures
        percent_decode(seq![0x25u8, ascii_lower(hex_upper(v / 16)), ascii_lower(hex_upper(v % 16))] + rest, plus_as_space)
            == seq![v] + percent_decode(rest, plus_as_space),
{
    let x = ascii_lower(hex_upper(v / 16));
    let y = ascii_lower(hex_upper(v % 16));
    law_hex_digit_reads_both_cases(v / 16);
    law_hex_digit_reads_both_cases(v % 16);
    lemma_escape_prefix(x, y, rest, plus_as_space);
    assert(((v / 16) * 16 + v % 16) as u8 == v);
}

} // verus!
