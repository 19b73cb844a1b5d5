//! Byte-level pieces of route strings and URLs: fragments, hash routes,
//! schemes and authorities, path normalisation, and the path/query split of
//! route patterns.

use vstd::prelude::*;
use vstd::slice::slice_subrange;
use crate::split::{find_from, find_byte, next_sep, lemma_find_from_bounds, lemma_next_sep_bounds};
use crate::text::is_ascii_alnum;
use crate::trim::{trim_ws, trim_bounds, trim_start_index, trim_end_index, lemma_trim_bounds,
    strip_back, trailing_strip};

verus! {

pub open spec fn starts_with_byte(b: Seq<u8>, x: u8) -> bool {
    b.len() > 0 && b[0] == x
}

/// The bytes before the first `x` (all of `b` when there is none).
pub open spec fn before_byte(b: Seq<u8>, x: u8) -> Seq<u8> {
    b.subrange(0, find_from(b, x, 0))
}

/// The bytes after the first `x`, if there is one.
pub open spec fn after_byte(b: Seq<u8>, x: u8) -> Option<Seq<u8>> {
    let i = find_from(b, x, 0);
    if i < b.len() {
        Some(b.subrange(i + 1, b.len() as int))
    } else {
        None
    }
}

/// The route inside a fragment that holds a hash route (`/x` or `!/x`).
pub open spec fn hash_route_part(f: Seq<u8>) -> Option<Seq<u8>> {
    let route = if starts_with_byte(f, 0x21) { f.drop_first() } else { f };
    if starts_with_byte(route, 0x2f) { Some(route) } else { None }
}

/// `b` from its first `/` or `?` on: the part after a URL's authority.
pub open spec fn strip_authority(b: Seq<u8>) -> Seq<u8> {
    b.subrange(next_sep(b, 0x2f, 0x3f, 0), b.len() as int)
}

/// Bytes allowed in a URL scheme: ASCII letters, digits, `+`, `-`, `.`.
pub open spec fn is_scheme_byte(c: u8) -> bool {
    is_ascii_alnum(c) || c == 0x2b || c == 0x2d || c == 0x2e
}

pub open spec fn ascii_lower(c: u8) -> u8 {
    if 0x41 <= c <= 0x5a { (c + 32) as u8 } else { c }
}

/// `s` equals `t` ignoring ASCII case (`t` in lower case).
pub open spec fn eq_ignore_case(s: Seq<u8>, t: Seq<u8>) -> bool {
    s.len() == t.len() && forall|i: int| 0 <= i < s.len() ==> ascii_lower(#[trigger] s[i]) == t[i]
}

pub open spec fn is_http_scheme(s: Seq<u8>) -> bool {
    eq_ignore_case(s, seq![0x68u8, 0x74, 0x74, 0x70]) || eq_ignore_case(s, seq![0x68u8, 0x74, 0x74, 0x70, 0x73])
}

pub open spec fn starts_with_two(b: Seq<u8>, x: u8) -> bool {
    b.len() >= 2 && b[0] == x && b[1] == x
}

/// What is left of a route or URL once its scheme and authority are taken
/// off: `https://host/p` and `//host/p` give `/p`, `app://p` gives `p`, and
/// `app:p` gives `p`.
pub open spec fn strip_url_prefix(b: Seq<u8>) -> Seq<u8> {
    if starts_with_two(b, 0x2f) {
        strip_authority(b.subrange(2, b.len() as int))
    } else {
        let i = find_from(b, 0x3a, 0);
        if i >= b.len() {
            b
        } else {
            let scheme = b.subrange(0, i);
            if !(forall|j: int| 0 <= j < scheme.len() ==> is_scheme_byte(#[trigger] scheme[j])) {
                b
            } else {
                let rest = b.subrange(i + 1, b.len() as int);
                if starts_with_two(rest, 0x2f) {
                    if is_http_scheme(scheme) {
                        strip_authority(rest.subrange(2, rest.len() as int))
                    } else {
                        rest.subrange(2, rest.len() as int)
                    }
                } else {
                    rest
                }
            }
        }
    }
}

/// A route path in normal form: trimmed, starting with `/`, and without
/// trailing `/` unless it is the root.
pub open spec fn normalize_path(b: Seq<u8>) -> Seq<u8> {
    let t = trim_ws(b);
    if t.len() == 0 {
        seq![0x2fu8]
    } else {
        let w = if t[0] == 0x2f { t } else { seq![0x2fu8] + t };
        if w.len() > 1 {
            w.subrange(0, strip_back(w, 0x2f, 0, w.len() as int))
        } else {
            w
        }
    }
}

/// Index of the last `/` before `e`, or -1.
pub open spec fn last_slash_before(b: Seq<u8>, e: int) -> int
    decreases e,
{
    if e <= 0 {
        -1
    } else if b[e - 1] == 0x2f {
        e - 1
    } else {
        last_slash_before(b, e - 1)
    }
}

/// Whether the `?` at index `q` marks an optional `:param?` segment: it ends
/// the segment, and the segment is `:` followed by a name.
pub open spec fn is_optional_marker(b: Seq<u8>, q: int) -> bool {
    let next_ok = q + 1 >= b.len() || b[q + 1] == 0x2f;
    let start = last_slash_before(b, q) + 1;
    next_ok && start < q && b[start] == 0x3a && q - start > 1
}

/// Index of the first `?` at or after `from` that starts a pattern's query,
/// or `b.len()`.
pub open spec fn pattern_query_index(b: Seq<u8>, from: int) -> int
    decreases b.len() - from,
{
    if from < 0 || from >= b.len() {
        b.len() as int
    } else if b[from] == 0x3f && !is_optional_marker(b, from) {
        from
    } else {
        pattern_query_index(b, from + 1)
    }
}

pub proof fn lemma_last_slash_bounds(b: Seq<u8>, e: int)
    requires
        e <= b.len(),
    ensures
        -1 <= last_slash_before(b, e) < e || (e <= 0 && last_slash_before(b, e) == -1),
        last_slash_before(b, e) >= 0 ==> b[last_slash_before(b, e)] == 0x2f,
    decreases e,
{
    if e > 0 && b[e - 1] != 0x2f {
        lemma_last_slash_bounds(b, e - 1);
    }
}

pub proof fn lemma_pattern_query_bounds(b: Seq<u8>, from: int)
    requires
        0 <= from,
    ensures
        from <= pattern_query_index(b, from) <= b.len() || (from > b.len() && pattern_query_index(b, from) == b.len()),
        pattern_query_index(b, from) < b.len() ==> b[pattern_query_index(b, from)] == 0x3f,
    decreases b.len() - from,
{
    if from < b.len() && !(b[from] == 0x3f && !is_optional_marker(b, from)) {
        lemma_pattern_query_bounds(b, from + 1);
    }
}

/// Index just past the end of the path of a route pattern.
pub open spec fn pattern_path_end(b: Seq<u8>) -> int {
    pattern_query_index(b, 0)
}

/// Index of the first `x`, or the length.
pub fn find_first(b: &[u8], x: u8) -> (r: usize)
    ensures
        r == find_from(b@, x, 0),
        r <= b@.len(),
{
    find_byte(b, x, 0)
}

/// Returns the start of the route inside a hash-route fragment, if the
/// fragment holds one.
pub fn hash_route_start(f: &[u8]) -> (r: Option<usize>)
    ensures
        match r {
            Some(s) => s <= f@.len() && hash_route_part(f@) == Some(f@.subrange(s as int, f@.len() as int)),
            None => hash_route_part(f@) is None,
        },
{
    let s: usize = if f.len() > 0 && f[0] == 0x21 { 1 } else { 0 };
    assert(f@.drop_first() =~= f@.subrange(1, f@.len() as int));
    assert(f@ =~= f@.subrange(0, f@.len() as int));
    if s < f.len() && f[s] == 0x2f {
        Some(s)
    } else {
        None
    }
}

/// Start of the part after a URL's authority, within `b[from..]`.
fn authority_end(b: &[u8], from: usize) -> (r: usize)
    requires
        from <= b@.len(),
    ensures
        from <= r <= b@.len(),
        b@.subrange(r as int, b@.len() as int) == strip_authority(b@.subrange(from as int, b@.len() as int)),
{
    let n = b.len();
    let ghost t = b@.subrange(from as int, n as int);
    let mut i = from;
    proof {
        lemma_next_sep_bounds(t, 0x2f, 0x3f, 0);
    }
    while i < n && b[i] != 0x2f && b[i] != 0x3f
        invariant
            n == b@.len(),
            from <= i <= n,
            t == b@.subrange(from as int, n as int),
            next_sep(t, 0x2f, 0x3f, 0) == next_sep(t, 0x2f, 0x3f, (i - from) as int),
        decreases n - i,
    {
        i = i + 1;
    }
    assert(b@.subrange(i as int, n as int) =~= t.subrange((i - from) as int, t.len() as int));
    i
}

fn lower_byte(c: u8) -> (r: u8)
    ensures
        r == ascii_lower(c),
{
    if 0x41 <= c && c <= 0x5a { c + 32 } else { c }
}

fn is_http(s: &[u8]) -> (r: bool)
    ensures
        r == is_http_scheme(s@),
{
    let n = s.len();
    if n != 4 && n != 5 {
        return false;
    }
    let ok4 = lower_byte(s[0]) == 0x68 && lower_byte(s[1]) == 0x74 && lower_byte(s[2]) == 0x74
        && lower_byte(s[3]) == 0x70;
    let r = if n == 4 { ok4 } else { ok4 && lower_byte(s[4]) == 0x73 };
    proof {
        let h4 = seq![0x68u8, 0x74, 0x74, 0x70];
        let h5 = seq![0x68u8, 0x74, 0x74, 0x70, 0x73];
        if r {
            if n == 4 {
                assert(eq_ignore_case(s@, h4));
            } else {
                assert(eq_ignore_case(s@, h5));
            }
        } else {
            if eq_ignore_case(s@, h4) {
                assert(ascii_lower(s@[0]) == h4[0]);
                assert(ascii_lower(s@[1]) == h4[1]);
                assert(ascii_lower(s@[2]) == h4[2]);
                assert(ascii_lower(s@[3]) == h4[3]);
            }
            if eq_ignore_case(s@, h5) {
                assert(ascii_lower(s@[0]) == h5[0]);
                assert(ascii_lower(s@[1]) == h5[1]);
                assert(ascii_lower(s@[2]) == h5[2]);
                assert(ascii_lower(s@[3]) == h5[3]);
                assert(ascii_lower(s@[4]) == h5[4]);
            }
        }
    }
    r
}

/// Start index in `b` of `strip_url_prefix(b)`.
pub fn url_prefix_end(b: &[u8]) -> (r: usize)
    ensures
        r <= b@.len(),
        b@.subrange(r as int, b@.len() as int) == strip_url_prefix(b@),
{
    let n = b.len();
    assert(b@ =~= b@.subrange(0, n as int));
    if n >= 2 && b[0] == 0x2f && b[1] == 0x2f {
        return authority_end(b, 2);
    }
    let i = find_first(b, 0x3a);
    proof {
        lemma_find_from_bounds(b@, 0x3a, 0);
    }
    if i >= n {
        return 0;
    }
    let mut j: usize = 0;
    while j < i
        invariant
            i < n == b@.len(),
            i == find_from(b@, 0x3a, 0),
            !starts_with_two(b@, 0x2f),
            j <= i,
            forall|k: int| 0 <= k < j ==> is_scheme_byte(#[trigger] b@[k]),
        decreases i - j,
    {
        let c = b[j];
        let ok = (0x30 <= c && c <= 0x39) || (0x41 <= c && c <= 0x5a) || (0x61 <= c && c <= 0x7a)
            || c == 0x2b || c == 0x2d || c == 0x2e;
        if !ok {
            assert(b@.subrange(0, i as int)[j as int] == c);
            assert(!is_scheme_byte(b@.subrange(0, i as int)[j as int]));
            assert(b@.subrange(0, n as int) =~= b@);
            return 0;
        }
        j = j + 1;
    }
    let ghost scheme = b@.subrange(0, i as int);
    assert(forall|k: int| 0 <= k < scheme.len() ==> is_scheme_byte(#[trigger] scheme[k])) by {
        assert forall|k: int| 0 <= k < scheme.len() implies is_scheme_byte(#[trigger] scheme[k]) by {
            assert(scheme[k] == b@[k]);
        }
    }
    let ghost rest = b@.subrange(i + 1, n as int);
    if n - i >= 3 && b[i + 1] == 0x2f && b[i + 2] == 0x2f {
        assert(rest.subrange(2, rest.len() as int) =~= b@.subrange(i + 3, n as int));
        if is_http(slice_subrange(b, 0, i)) {
            authority_end(b, i + 3)
        } else {
            i + 3
        }
    } else {
        i + 1
    }
}

/// The normalised path of `b`, as bytes.
pub fn normalize_path_bytes(b: &[u8]) -> (r: Vec<u8>)
    ensures
        r@ == normalize_path(b@),
{
    let (s, e) = trim_bounds(b);
    let t = slice_subrange(b, s, e);
    assert(t@ == trim_ws(b@));
    let mut w: Vec<u8> = Vec::new();
    if t.len() == 0 {
        w.push(0x2f);
        assert(w@ =~= seq![0x2fu8]);
        return w;
    }
    if t[0] != 0x2f {
        w.push(0x2f);
    }
    let mut i: usize = 0;
    let ghost w0 = w@;
    while i < t.len()
        invariant
            i <= t@.len(),
            w@ == w0 + t@.subrange(0, i as int),
        decreases t@.len() - i,
    {
        w.push(t[i]);
        assert(t@.subrange(0, i + 1) =~= t@.subrange(0, i as int).push(t@[i as int]));
        i = i + 1;
    }
    assert(t@.subrange(0, t@.len() as int) =~= t@);
    proof {
        if t@[0] == 0x2f {
            assert(w@ =~= t@);
        } else {
            assert(w@ =~= seq![0x2fu8] + t@);
        }
    }
    if w.len() > 1 {
        let e2 = trailing_strip(w.as_slice(), 0x2f);
        w.truncate(e2);
        assert(w@ =~= (w0 + t@).subrange(0, e2 as int));
    }
    w
}

/// End index of the path part of a route pattern: its first `?` that does
/// not mark an optional `:param?` segment.
pub fn pattern_path_end_index(b: &[u8]) -> (r: usize)
    ensures
        r == pattern_path_end(b@),
        r <= b@.len(),
{
    let n = b.len();
    let mut i: usize = 0;
    let mut last_slash: usize = 0;
    let mut seen_slash = false;
    while i < n
        invariant
            n == b@.len(),
            i <= n,
            pattern_query_index(b@, 0) == pattern_query_index(b@, i as int),
            seen_slash ==> last_slash < i && last_slash_before(b@, i as int) == last_slash,
            !seen_slash ==> last_slash_before(b@, i as int) == -1,
        decreases n - i,
    {
        if b[i] == 0x3f {
            let next_ok = i + 1 >= n || b[i + 1] == 0x2f;
            let start: usize = if seen_slash { last_slash + 1 } else { 0 };
            let marker = next_ok && start < i && b[start] == 0x3a && i - start > 1;
            assert(marker == is_optional_marker(b@, i as int));
            if !marker {
                return i;
            }
        }
        if b[i] == 0x2f {
            last_slash = i;
            seen_slash = true;
        }
        i = i + 1;
    }
    i
}

} // verus!
