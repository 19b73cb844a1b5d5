//! Trimming of UTF-8 byte strings.
//!
//! Whitespace is the Unicode `White_Space` set, as `str::trim` uses it:
//! U+0009..U+000D, U+0020, U+0085, U+00A0, U+1680, U+2000..U+200A, U+2028,
//! U+2029, U+202F, U+205F and U+3000, recognised here by their UTF-8
//! encodings.

use vstd::prelude::*;

verus! {

/// Byte length of a whitespace character encoded at `i` (0 if none).
pub open spec fn ws_len_at(b: Seq<u8>, i: int) -> int {
    if 0 <= i < b.len() && (b[i] == 0x20u8 || (0x09u8 <= b[i] <= 0x0du8)) {
        1
    } else if 0 <= i && i + 1 < b.len() && b[i] == 0xc2u8 && (b[i + 1] == 0x85u8 || b[i + 1] == 0xa0u8) {
        2
    } else if 0 <= i && i + 2 < b.len() && (
        (b[i] == 0xe1u8 && b[i + 1] == 0x9au8 && b[i + 2] == 0x80u8)
        || (b[i] == 0xe2u8 && b[i + 1] == 0x80u8 && ((0x80u8 <= b[i + 2] <= 0x8au8) || b[i + 2] == 0xa8u8
            || b[i + 2] == 0xa9u8 || b[i + 2] == 0xafu8))
        || (b[i] == 0xe2u8 && b[i + 1] == 0x81u8 && b[i + 2] == 0x9fu8)
        || (b[i] == 0xe3u8 && b[i + 1] == 0x80u8 && b[i + 2] == 0x80u8)) {
        3
    } else {
        0
    }
}

/// Byte length of a whitespace character that ends at `e` and starts at or
/// after `lo` (0 if none).
pub open spec fn ws_len_before(b: Seq<u8>, lo: int, e: int) -> int {
    if lo <= e - 1 && ws_len_at(b, e - 1) == 1 {
        1
    } else if lo <= e - 2 && ws_len_at(b, e - 2) == 2 {
        2
    } else if lo <= e - 3 && ws_len_at(b, e - 3) == 3 {
        3
    } else {
        0
    }
}

/// First index at or after `i` that does not start a whitespace character.
pub open spec fn skip_ws(b: Seq<u8>, i: int) -> int
    decreases b.len() - i,
{
    if 0 <= i < b.len() && ws_len_at(b, i) > 0 {
        skip_ws(b, i + ws_len_at(b, i))
    } else {
        i
    }
}

/// End index after dropping whitespace characters that end at `e`, never
/// going below `lo`.
pub open spec fn skip_ws_back(b: Seq<u8>, lo: int, e: int) -> int
    decreases e - lo,
{
    if lo < e && ws_len_before(b, lo, e) > 0 {
        skip_ws_back(b, lo, e - ws_len_before(b, lo, e))
    } else {
        e
    }
}

/// Start of the text of `b` without leading whitespace.
pub open spec fn trim_start_index(b: Seq<u8>) -> int {
    skip_ws(b, 0)
}

/// End of the text of `b` without trailing whitespace.
pub open spec fn trim_end_index(b: Seq<u8>) -> int {
    skip_ws_back(b, trim_start_index(b), b.len() as int)
}

/// `b` without leading and trailing whitespace, as `str::trim`.
pub open spec fn trim_ws(b: Seq<u8>) -> Seq<u8> {
    b.subrange(trim_start_index(b), trim_end_index(b))
}

pub proof fn lemma_skip_ws_bounds(b: Seq<u8>, i: int)
    requires
        0 <= i <= b.len(),
    ensures
        i <= skip_ws(b, i) <= b.len(),
    decreases b.len() - i,
{
    if 0 <= i < b.len() && ws_len_at(b, i) > 0 {
        lemma_skip_ws_bounds(b, i + ws_len_at(b, i));
    }
}

pub proof fn lemma_skip_ws_back_bounds(b: Seq<u8>, lo: int, e: int)
    requires
        0 <= lo <= e <= b.len(),
    ensures
        lo <= skip_ws_back(b, lo, e) <= e,
    decreases e - lo,
{
    if lo < e && ws_len_before(b, lo, e) > 0 {
        lemma_skip_ws_back_bounds(b, lo, e - ws_len_before(b, lo, e));
    }
}

pub proof fn lemma_trim_bounds(b: Seq<u8>)
    ensures
        0 <= trim_start_index(b) <= trim_end_index(b) <= b.len(),
{
    lemma_skip_ws_bounds(b, 0);
    lemma_skip_ws_back_bounds(b, trim_start_index(b), b.len() as int);
}

fn ws_len_at_exec(b: &[u8], i: usize) -> (r: usize)
    requires
        i <= b@.len(),
    ensures
        r == ws_len_at(b@, i as int),
{
    let n = b.len();
    if i < n && (b[i] == 0x20 || (0x09 <= b[i] && b[i] <= 0x0d)) {
        1
    } else if n - i > 1 && b[i] == 0xc2 && (b[i + 1] == 0x85 || b[i + 1] == 0xa0) {
        2
    } else if n - i > 2 && (
        (b[i] == 0xe1 && b[i + 1] == 0x9a && b[i + 2] == 0x80)
        || (b[i] == 0xe2 && b[i + 1] == 0x80 && ((0x80 <= b[i + 2] && b[i + 2] <= 0x8a) || b[i + 2] == 0xa8
            || b[i + 2] == 0xa9 || b[i + 2] == 0xaf))
        || (b[i] == 0xe2 && b[i + 1] == 0x81 && b[i + 2] == 0x9f)
        || (b[i] == 0xe3 && b[i + 1] == 0x80 && b[i + 2] == 0x80)) {
        3
    } else {
        0
    }
}

fn ws_back_exec(b: &[u8], lo: usize, e: usize) -> (r: usize)
    requires
        lo < e <= b@.len(),
    ensures
        r == ws_len_before(b@, lo as int, e as int),
        r <= e - lo,
{
    if ws_len_at_exec(b, e - 1) == 1 {
        1
    } else if e - lo >= 2 && ws_len_at_exec(b, e - 2) == 2 {
        2
    } else if e - lo >= 3 && ws_len_at_exec(b, e - 3) == 3 {
        3
    } else {
        0
    }
}

/// Returns the bounds `(start, end)` of `b` without leading and trailing
/// whitespace.
pub fn trim_bounds(b: &[u8]) -> (r: (usize, usize))
    ensures
        r.0 == trim_start_index(b@),
        r.1 == trim_end_index(b@),
        r.0 <= r.1 <= b@.len(),
{
    let n = b.len();
    let mut i: usize = 0;
    while i < n && ws_len_at_exec(b, i) > 0
        invariant
            n == b@.len(),
            i <= n,
            skip_ws(b@, 0) == skip_ws(b@, i as int),
        decreases n - i,
    {
        let w = ws_len_at_exec(b, i);
        i = i + w;
    }
    let start = i;
    let mut e: usize = n;
    while e > start && ws_back_exec(b, start, e) > 0
        invariant
            n == b@.len(),
            start == trim_start_index(b@),
            start <= e <= n,
            skip_ws_back(b@, start as int, n as int) == skip_ws_back(b@, start as int, e as int),
        decreases e,
    {
        let w = ws_back_exec(b, start, e);
        e = e - w;
    }
    (start, e)
}

/// Index of the first byte at or after `i` that is not `x`.
pub open spec fn skip_byte(b: Seq<u8>, x: u8, i: int) -> int
    decreases b.len() - i,
{
    if 0 <= i < b.len() && b[i] == x {
        skip_byte(b, x, i + 1)
    } else {
        i
    }
}

/// End index after dropping trailing `x` bytes, never going below `lo`.
pub open spec fn strip_back(b: Seq<u8>, x: u8, lo: int, e: int) -> int
    decreases e - lo,
{
    if lo < e && b[e - 1] == x {
        strip_back(b, x, lo, e - 1)
    } else {
        e
    }
}

/// Number of leading `x` bytes of `b` (as `trim_start_matches`).
pub fn leading_run(b: &[u8], x: u8) -> (r: usize)
    ensures
        r == skip_byte(b@, x, 0),
        r <= b@.len(),
{
    let n = b.len();
    let mut i: usize = 0;
    while i < n && b[i] == x
        invariant
            n == b@.len(),
            i <= n,
            skip_byte(b@, x, 0) == skip_byte(b@, x, i as int),
        decreases n - i,
    {
        i = i + 1;
    }
    i
}

/// End of `b` without its trailing `x` bytes (as `trim_end_matches`).
pub fn trailing_strip(b: &[u8], x: u8) -> (r: usize)
    ensures
        r == strip_back(b@, x, 0, b@.len() as int),
        r <= b@.len(),
{
    let mut e: usize = b.len();
    while e > 0 && b[e - 1] == x
        invariant
            e <= b@.len(),
            strip_back(b@, x, 0, b@.len() as int) == strip_back(b@, x, 0, e as int),
        decreases e,
    {
        e = e - 1;
    }
    e
}

} // verus!
