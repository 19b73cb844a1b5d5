//! Parsed route locations: path, query and fragment of app routes, web
//! URLs, custom-scheme deep links and hash routes, and their serialisation
//! back to route strings.

use vstd::prelude::*;
use vstd::slice::slice_subrange;
use crate::maps::{
    QueryMap, StrMap, first_values, multi_push, assoc_put, assoc_remove, assoc_get, keys_sorted,
    strings_view, lemma_multi_push_sorted, lemma_first_values_sorted, lemma_assoc_put_sorted,
    lemma_assoc_remove_sorted,
};
use crate::route_laws::{printable, law_parse_undoes_print};
use crate::split::{find_from, split_parts, parts_from, lemma_find_from_bounds, split_ranges};
use crate::text::{
    string_from_bytes, percent_decode, decode_component_bytes, percent_encode,
    encode_component_into, str_bytes, text_of,
};
use crate::trim::{trim_ws, trim_bounds, lemma_trim_bounds, skip_byte, leading_run};
use crate::urlparts::{
    before_byte, after_byte, hash_route_part, strip_url_prefix, normalize_path, pattern_path_end,
    starts_with_byte, find_first, hash_route_start, url_prefix_end, normalize_path_bytes,
    pattern_path_end_index, lemma_pattern_query_bounds,
};

verus! {

/// Multi-valued query map contents.
pub type QueryView = Seq<(Seq<char>, Seq<Seq<char>>)>;

/// The text of a percent-decoded component.
pub open spec fn lossy_decode(b: Seq<u8>, plus_as_space: bool) -> Seq<char> {
    text_of(percent_decode(b, plus_as_space))
}

/// Adds one `key=value` piece of a query string: empty pieces and pieces
/// with an empty key are skipped, a piece without `=` has an empty value.
pub open spec fn add_query_pair(acc: QueryView, p: Seq<u8>) -> QueryView {
    if p.len() == 0 {
        acc
    } else {
        let k = lossy_decode(before_byte(p, 0x3d), true);
        if k.len() == 0 {
            acc
        } else {
            let v = match after_byte(p, 0x3d) {
                Some(x) => lossy_decode(x, true),
                None => lossy_decode(Seq::empty(), true),
            };
            multi_push(acc, k, v)
        }
    }
}

/// The query map built from query pieces in order.
pub open spec fn query_fold(parts: Seq<Seq<u8>>) -> QueryView
    decreases parts.len(),
{
    if parts.len() == 0 {
        Seq::empty()
    } else {
        add_query_pair(query_fold(parts.drop_last()), parts.last())
    }
}

/// `q` without its leading `?` characters.
pub open spec fn strip_question(q: Seq<u8>) -> Seq<u8> {
    q.subrange(skip_byte(q, 0x3f, 0), q.len() as int)
}

/// All decoded values of a query string, keys in sorted order and values in
/// the order they appear; pieces are separated by `&` or `;`.
pub open spec fn query_all_of(q: Seq<u8>) -> QueryView {
    query_fold(split_parts(strip_question(q), 0x26, 0x3b))
}

/// Normalised path bytes, raw query bytes, and raw non-empty fragment of a
/// route; `pattern` keeps `?` of optional `:param?` segments in the path.
/// A fragment holding a hash route (`#/x` or `#!/x`) supplies path and query.
pub open spec fn route_parts(b: Seq<u8>, pattern: bool) -> (Seq<u8>, Seq<u8>, Option<Seq<u8>>)
    decreases b.len(),
{
    let t = trim_ws(b);
    let frag = after_byte(t, 0x23);
    let fr = match frag {
        Some(f) => if f.len() > 0 { Some(f) } else { None },
        None => None,
    };
    if frag is Some && hash_route_part(frag.unwrap()) is Some {
        proof {
            lemma_trim_bounds(b);
            lemma_find_from_bounds(t, 0x23, 0);
        }
        let inner = route_parts(hash_route_part(frag.unwrap()).unwrap(), pattern);
        (inner.0, inner.1, fr)
    } else {
        let rp = strip_url_prefix(before_byte(t, 0x23));
        let qi = if pattern { pattern_path_end(rp) } else { find_from(rp, 0x3f, 0) };
        let q = if 0 <= qi < rp.len() { rp.subrange(qi + 1, rp.len() as int) } else { Seq::empty() };
        (normalize_path(rp.subrange(0, qi)), q, fr)
    }
}

pub open spec fn frag_view(fr: Option<Seq<u8>>) -> Option<Seq<char>> {
    match fr {
        Some(f) => Some(lossy_decode(f, false)),
        None => None,
    }
}

pub open spec fn opt_string_view(o: Option<String>) -> Option<Seq<char>> {
    match o {
        Some(s) => Some(s@),
        None => None,
    }
}

/// Parsed route information for app routes and URLs.
///
/// `path` is the normalised route path without query or fragment, `query`
/// holds the first value of each query key, `query_all` keeps repeated
/// keys, and `fragment` is the decoded hash fragment without `#`.
#[derive(Debug)]
pub struct RouteLocation {
    /// Normalised route path without query or fragment.
    pub path: String,
    /// First decoded value of each decoded query key.
    pub query: StrMap,
    /// All decoded values of each decoded query key.
    pub query_all: QueryMap,
    /// Decoded fragment without the leading `#`, when present.
    pub fragment: Option<String>,
}

/// `loc` is what parsing the bytes `b` gives.
pub open spec fn parsed_as(loc: RouteLocation, b: Seq<u8>, pattern: bool) -> bool {
    let p = route_parts(b, pattern);
    &&& loc.path@ == text_of(p.0)
    &&& loc.query_all@ == query_all_of(p.1)
    &&& loc.query@ == first_values(query_all_of(p.1))
    &&& opt_string_view(loc.fragment) == frag_view(p.2)
}

pub proof fn lemma_query_fold_sorted(parts: Seq<Seq<u8>>)
    ensures
        keys_sorted(query_fold(parts)),
        keys_sorted(first_values(query_fold(parts))),
    decreases parts.len(),
{
    if parts.len() > 0 {
        lemma_query_fold_sorted(parts.drop_last());
        let acc = query_fold(parts.drop_last());
        let p = parts.last();
        if p.len() > 0 {
            let k = lossy_decode(before_byte(p, 0x3d), true);
            let v = match after_byte(p, 0x3d) {
                Some(x) => lossy_decode(x, true),
                None => lossy_decode(Seq::empty(), true),
            };
            lemma_multi_push_sorted(acc, k, v);
        }
    }
    lemma_first_values_sorted(query_fold(parts));
}

/// Decodes `b` and returns its text.
fn decoded_string(b: &[u8], plus_as_space: bool) -> (s: String)
    ensures
        s@ == lossy_decode(b@, plus_as_space),
{
    let d = decode_component_bytes(b, plus_as_space);
    string_from_bytes(d.as_slice())
}

/// Parses the query string `q` (bytes) into decoded repeated values.
pub fn parse_query_bytes(q: &[u8]) -> (r: QueryMap)
    ensures
        r@ == query_all_of(q@),
{
    let n = q.len();
    let s = leading_run(q, 0x3f);
    let rest = slice_subrange(q, s, n);
    let ranges = split_ranges(rest, 0x26, 0x3b);
    let ghost parts = split_parts(rest@, 0x26, 0x3b);
    let mut acc = QueryMap::new();
    let mut j: usize = 0;
    assert(parts.take(0) =~= Seq::<Seq<u8>>::empty());
    while j < ranges.len()
        invariant
            j <= ranges@.len(),
            ranges@.len() == parts.len(),
            parts == split_parts(rest@, 0x26, 0x3b),
            forall|i: int| #![trigger ranges@[i]] 0 <= i < ranges@.len() ==> {
                &&& ranges@[i].0 <= ranges@[i].1 <= rest@.len()
                &&& rest@.subrange(ranges@[i].0 as int, ranges@[i].1 as int) == split_parts(rest@, 0x26, 0x3b)[i]
            },
            acc@ == query_fold(parts.take(j as int)),
        decreases ranges@.len() - j,
    {
        let (a, b) = ranges[j];
        let p = slice_subrange(rest, a, b);
        assert(p@ == parts[j as int]);
        assert(parts.take(j + 1).drop_last() =~= parts.take(j as int));
        assert(parts.take(j + 1).last() == parts[j as int]);
        if p.len() > 0 {
            let eq = find_first(p, 0x3d);
            let key = decoded_string(slice_subrange(p, 0, eq), true);
            if !key.as_str().is_empty() {
                let value = if eq < p.len() {
                    decoded_string(slice_subrange(p, eq + 1, p.len()), true)
                } else {
                    let empty: Vec<u8> = Vec::new();
                    assert(empty@ =~= Seq::<u8>::empty());
                    decoded_string(empty.as_slice(), true)
                };
                acc.push_value(key, value);
            }
        }
        j = j + 1;
    }
    assert(parts.take(ranges@.len() as int) =~= parts);
    assert(rest@ == strip_question(q@));
    acc
}

/// Parses the bytes of a route into a location; `pattern` selects the
/// pattern reading of `?`.
pub fn parse_location_bytes(b: &[u8], pattern: bool) -> (r: RouteLocation)
    ensures
        parsed_as(r, b@, pattern),
    decreases b@.len(),
{
    let (ts, te) = trim_bounds(b);
    let t = slice_subrange(b, ts, te);
    proof {
        lemma_trim_bounds(b@);
        lemma_find_from_bounds(t@, 0x23, 0);
    }
    let h = find_first(t, 0x23);
    let frag_bytes: Option<&[u8]> = if h < t.len() { Some(slice_subrange(t, h + 1, t.len())) } else { None };
    let fragment: Option<String> = match frag_bytes {
        Some(f) => if f.len() > 0 { Some(decoded_string(f, false)) } else { None },
        None => None,
    };
    if let Some(f) = frag_bytes {
        if let Some(s) = hash_route_start(f) {
            let inner = slice_subrange(f, s, f.len());
            let loc = parse_location_bytes(inner, pattern);
            return RouteLocation { path: loc.path, query: loc.query, query_all: loc.query_all, fragment };
        }
    }
    let head = slice_subrange(t, 0, h);
    let ps = url_prefix_end(head);
    let rp = slice_subrange(head, ps, head.len());
    let qi = if pattern { pattern_path_end_index(rp) } else { find_first(rp, 0x3f) };
    proof {
        lemma_pattern_query_bounds(rp@, 0);
        lemma_find_from_bounds(rp@, 0x3f, 0);
    }
    let path_bytes = normalize_path_bytes(slice_subrange(rp, 0, qi));
    let path = string_from_bytes(path_bytes.as_slice());
    let query_all = if qi < rp.len() {
        parse_query_bytes(slice_subrange(rp, qi + 1, rp.len()))
    } else {
        let empty: Vec<u8> = Vec::new();
        assert(empty@ =~= Seq::<u8>::empty());
        parse_query_bytes(empty.as_slice())
    };
    let query = query_all.first_values();
    RouteLocation { path, query, query_all, fragment }
}


/// `key=value` with both sides query-encoded.
pub open spec fn pair_bytes(k: Seq<char>, v: Seq<char>) -> Seq<u8> {
    percent_encode(str_bytes(k), true, false) + seq![0x3du8] + percent_encode(str_bytes(v), true, false)
}

/// The encoded pairs of one key, in the order of its values.
pub open spec fn entry_pairs(k: Seq<char>, vs: Seq<Seq<char>>) -> Seq<Seq<u8>> {
    vs.map_values(|v: Seq<char>| pair_bytes(k, v))
}

/// The encoded pairs of a query map, key by key.
pub open spec fn query_pairs(qa: QueryView) -> Seq<Seq<u8>>
    decreases qa.len(),
{
    if qa.len() == 0 {
        Seq::empty()
    } else {
        query_pairs(qa.drop_last()) + entry_pairs(qa.last().0, qa.last().1)
    }
}

/// `parts` joined with `sep` between neighbours.
pub open spec fn join_bytes(parts: Seq<Seq<u8>>, sep: u8) -> Seq<u8>
    decreases parts.len(),
{
    if parts.len() == 0 {
        Seq::empty()
    } else if parts.len() == 1 {
        parts[0]
    } else {
        join_bytes(parts.drop_last(), sep) + seq![sep] + parts.last()
    }
}

/// Normalised path followed by `?` and the encoded query, if any key.
pub open spec fn path_and_query_bytes(path: Seq<char>, qa: QueryView) -> Seq<u8> {
    let p = normalize_path(str_bytes(path));
    if qa.len() == 0 {
        p
    } else {
        p + seq![0x3fu8] + join_bytes(query_pairs(qa), 0x26)
    }
}

/// The route string of a location: hash-route fragments (`/x`, `!/x`)
/// keep the hash-route form `/#...`, other fragments are encoded after `#`.
pub open spec fn route_string_bytes(path: Seq<char>, qa: QueryView, fragment: Option<Seq<char>>) -> Seq<u8> {
    let pq = path_and_query_bytes(path, qa);
    match fragment {
        None => pq,
        Some(f) => {
            let fb = str_bytes(f);
            if fb.len() >= 2 && fb[0] == 0x21 && fb[1] == 0x2f {
                seq![0x2fu8, 0x23, 0x21] + pq
            } else if starts_with_byte(fb, 0x2f) {
                seq![0x2fu8, 0x23] + pq
            } else {
                pq + seq![0x23u8] + percent_encode(fb, false, true)
            }
        },
    }
}

fn push_all(out: &mut Vec<u8>, b: &[u8])
    ensures
        final(out)@ == old(out)@ + b@,
{
    let mut i: usize = 0;
    while i < b.len()
        invariant
            i <= b@.len(),
            out@ == old(out)@ + b@.subrange(0, i as int),
        decreases b@.len() - i,
    {
        out.push(b[i]);
        assert(b@.subrange(0, i + 1) =~= b@.subrange(0, i as int).push(b@[i as int]));
        i = i + 1;
    }
    assert(b@.subrange(0, b@.len() as int) =~= b@);
}

/// Appends the encoded query of `qa` (pairs joined by `&`).
fn push_query(out: &mut Vec<u8>, qa: &QueryMap)
    ensures
        final(out)@ == old(out)@ + join_bytes(query_pairs(qa@), 0x26),
{
    let n = qa.len();
    let mut i: usize = 0;
    let ghost base = out@;
    let mut wrote = false;
    assert(qa@.take(0) =~= Seq::<(Seq<char>, Seq<Seq<char>>)>::empty());
    while i < n
        invariant
            n == qa@.len(),
            i <= n,
            base == old(out)@,
            wrote == (query_pairs(qa@.take(i as int)).len() > 0),
            out@ == base + join_bytes(query_pairs(qa@.take(i as int)), 0x26),
        decreases n - i,
    {
        let k = qa.key_at(i);
        let vs = qa.values_at(i);
        let ghost kv = qa@[i as int];
        let ghost before = query_pairs(qa@.take(i as int));
        let mut j: usize = 0;
        assert(entry_pairs(kv.0, kv.1.take(0)) =~= Seq::<Seq<u8>>::empty());
        assert(before + entry_pairs(kv.0, kv.1.take(0)) =~= before);
        while j < vs.len()
            invariant
                j <= vs@.len(),
                strings_view(vs@) == kv.1,
                k@ == kv.0,
                wrote == ((before + entry_pairs(kv.0, kv.1.take(j as int))).len() > 0),
                out@ == base + join_bytes(before + entry_pairs(kv.0, kv.1.take(j as int)), 0x26),
            decreases vs@.len() - j,
        {
            let ghost prev = before + entry_pairs(kv.0, kv.1.take(j as int));
            if wrote {
                out.push(0x26);
            }
            encode_component_into(out, k.as_str().as_bytes(), true, false);
            out.push(0x3d);
            encode_component_into(out, vs[j].as_str().as_bytes(), true, false);
            assert(kv.1[j as int] == vs@[j as int]@);
            assert(entry_pairs(kv.0, kv.1.take(j + 1)) =~= entry_pairs(kv.0, kv.1.take(j as int)).push(pair_bytes(kv.0, kv.1[j as int])));
            assert(before + entry_pairs(kv.0, kv.1.take(j + 1)) =~= prev.push(pair_bytes(kv.0, kv.1[j as int])));
            assert(prev.push(pair_bytes(kv.0, kv.1[j as int])).drop_last() =~= prev);
            wrote = true;
            j = j + 1;
        }
        assert(kv.1.take(vs@.len() as int) =~= kv.1);
        assert(qa@.take(i + 1).drop_last() =~= qa@.take(i as int));
        assert(qa@.take(i + 1).last() == kv);
        i = i + 1;
    }
    assert(qa@.take(n as int) =~= qa@);
}

/// Route string bytes of a path, query map and fragment.
pub fn route_string_of(path: &str, qa: &QueryMap, fragment: &Option<String>) -> (r: Vec<u8>)
    ensures
        r@ == route_string_bytes(path@, qa@, opt_string_view(*fragment)),
{
    let mut pq = normalize_path_bytes(path.as_bytes());
    if !qa.is_empty() {
        pq.push(0x3f);
        push_query(&mut pq, qa);
    }
    match fragment {
        None => pq,
        Some(f) => {
            let fb = f.as_str().as_bytes();
            if fb.len() >= 2 && fb[0] == 0x21 && fb[1] == 0x2f {
                let mut out: Vec<u8> = Vec::new();
                out.push(0x2f);
                out.push(0x23);
                out.push(0x21);
                push_all(&mut out, pq.as_slice());
                out
            } else if fb.len() > 0 && fb[0] == 0x2f {
                let mut out: Vec<u8> = Vec::new();
                out.push(0x2f);
                out.push(0x23);
                push_all(&mut out, pq.as_slice());
                out
            } else {
                pq.push(0x23);
                encode_component_into(&mut pq, fb, false, true);
                pq
            }
        },
    }
}

/// Parses a route, relative URL, absolute web URL, custom-scheme deep link
/// or hash route into path, query and fragment.
pub fn parse_route_location(input: &str) -> (r: RouteLocation)
    ensures
        parsed_as(r, str_bytes(input@), false),
{
    parse_location_bytes(input.as_bytes(), false)
}

/// Parses a route pattern; a `?` that ends a `:param?` segment stays in
/// the path.
pub fn parse_route_pattern_location(input: &str) -> (r: RouteLocation)
    ensures
        parsed_as(r, str_bytes(input@), true),
{
    parse_location_bytes(input.as_bytes(), true)
}

/// Parses a query string (with or without a leading `?`) into decoded
/// repeated values; keys without `=` get an empty value.
pub fn parse_query_all(query: &str) -> (r: QueryMap)
    ensures
        r@ == query_all_of(str_bytes(query@)),
        keys_sorted(r@),
{
    proof {
        lemma_query_fold_sorted(split_parts(strip_question(str_bytes(query@)), 0x26, 0x3b));
    }
    parse_query_bytes(query.as_bytes())
}

/// Parses a query string into the first decoded value of each key.
pub fn parse_query(query: &str) -> (r: StrMap)
    ensures
        r@ == first_values(query_all_of(str_bytes(query@))),
        keys_sorted(r@),
{
    let all = parse_query_all(query);
    proof {
        lemma_first_values_sorted(all@);
    }
    all.first_values()
}

/// Parses a deep link into its path and the first value of each query key.
pub fn parse_deep_link(url: &str) -> (r: (String, StrMap))
    ensures
        r.0@ == text_of(route_parts(str_bytes(url@), false).0),
        r.1@ == first_values(query_all_of(route_parts(str_bytes(url@), false).1)),
{
    let location = parse_route_location(url);
    (location.path, location.query)
}

impl RouteLocation {
    /// The first decoded value of `key`, if present.
    pub fn query_value(&self, key: &str) -> (r: Option<&str>)
        ensures
            (match r { Some(v) => Some(v@), None => None }) == assoc_get(self.query@, key@),
    {
        match self.query.get(key) {
            Some(v) => Some(v.as_str()),
            None => None,
        }
    }

    /// All decoded values of `key`, if present.
    pub fn query_values(&self, key: &str) -> (r: Option<&[String]>)
        ensures
            (match r { Some(v) => Some(strings_view(v@)), None => None }) == assoc_get(self.query_all@, key@),
    {
        match self.query_all.get(key) {
            Some(v) => Some(v.as_slice()),
            None => None,
        }
    }

    /// The route string of this location: query keys sorted, repeated values
    /// in order, hash-route locations kept in hash-route form.
    pub fn to_route_string(&self) -> (s: String)
        ensures
            s@ == text_of(route_string_bytes(self.path@, self.query_all@, opt_string_view(self.fragment))),
            printable(self.path@, self.query_all@, opt_string_view(self.fragment)) ==> {
                let p = route_parts(str_bytes(s@), false);
                &&& text_of(p.0) == self.path@
                &&& query_all_of(p.1) == self.query_all@
                &&& first_values(query_all_of(p.1)) == first_values(self.query_all@)
                &&& frag_view(p.2) == opt_string_view(self.fragment)
            },
    {
        proof {
            use_type_invariant(&self.query_all);
            if printable(self.path@, self.query_all@, opt_string_view(self.fragment)) {
                law_parse_undoes_print(self.path@, self.query_all@, opt_string_view(self.fragment));
            }
        }
        let b = route_string_of(self.path.as_str(), &self.query_all, &self.fragment);
        string_from_bytes(b.as_slice())
    }

    /// A copy of this location.
    pub fn copy(&self) -> (r: RouteLocation)
        ensures
            r.path@ == self.path@,
            r.query@ == self.query@,
            r.query_all@ == self.query_all@,
            opt_string_view(r.fragment) == opt_string_view(self.fragment),
    {
        let fragment = match &self.fragment {
            Some(f) => Some(f.clone()),
            None => None,
        };
        RouteLocation {
            path: self.path.clone(),
            query: self.query.copy(),
            query_all: self.query_all.copy(),
            fragment,
        }
    }

    /// A copy with `key` set to the given decoded values; no values removes
    /// the key.
    pub fn with_query_values(&self, key: &str, values: &[&str]) -> (r: RouteLocation)
        ensures
            r.path@ == self.path@,
            r.query_all@ == (if values@.len() == 0 {
                assoc_remove(self.query_all@, key@)
            } else {
                assoc_put(self.query_all@, key@, values@.map_values(|v: &str| v@))
            }),
            r.query@ == first_values(r.query_all@),
            opt_string_view(r.fragment) == opt_string_view(self.fragment),
    {
        let mut next = self.copy();
        if values.len() == 0 {
            next.query_all.remove(key);
        } else {
            let mut vals: Vec<String> = Vec::new();
            let mut i: usize = 0;
            while i < values.len()
                invariant
                    i <= values@.len(),
                    strings_view(vals@) =~= values@.take(i as int).map_values(|v: &str| v@),
                decreases values@.len() - i,
            {
                let ghost before = vals@;
                let v = values[i].to_owned();
                vals.push(v);
                assert(vals@ =~= before.push(v));
                assert(strings_view(vals@) =~= strings_view(before).push(v@));
                assert(values@.take(i + 1) =~= values@.take(i as int).push(values@[i as int]));
                assert(values@.take(i + 1).map_values(|v: &str| v@) =~= values@.take(i as int).map_values(|v: &str| v@).push(values@[i as int]@));
                i = i + 1;
            }
            assert(values@.take(values@.len() as int) =~= values@);
            next.query_all.put(key.to_owned(), vals);
        }
        next.query = next.query_all.first_values();
        next
    }

    /// A copy with `key` set to one decoded value.
    pub fn with_query_param(&self, key: &str, value: &str) -> (r: RouteLocation)
        ensures
            r.path@ == self.path@,
            r.query_all@ == assoc_put(self.query_all@, key@, seq![value@]),
            r.query@ == first_values(r.query_all@),
            opt_string_view(r.fragment) == opt_string_view(self.fragment),
    {
        let mut values: Vec<&str> = Vec::new();
        values.push(value);
        let r = self.with_query_values(key, values.as_slice());
        assert(values@.map_values(|v: &str| v@) =~= seq![value@]);
        r
    }

    /// A copy without `key` in the query.
    pub fn without_query_param(&self, key: &str) -> (r: RouteLocation)
        ensures
            r.path@ == self.path@,
            r.query_all@ == assoc_remove(self.query_all@, key@),
            r.query@ == first_values(r.query_all@),
            opt_string_view(r.fragment) == opt_string_view(self.fragment),
    {
        let mut next = self.copy();
        next.query_all.remove(key);
        next.query = next.query_all.first_values();
        next
    }

    /// A copy with the fragment set to `fragment`.
    pub fn with_fragment(&self, fragment: &str) -> (r: RouteLocation)
        ensures
            r.path@ == self.path@,
            r.query@ == self.query@,
            r.query_all@ == self.query_all@,
            opt_string_view(r.fragment) == Some(fragment@),
    {
        let mut next = self.copy();
        next.fragment = Some(fragment.to_owned());
        next
    }

    /// A copy without a fragment.
    pub fn without_fragment(&self) -> (r: RouteLocation)
        ensures
            r.path@ == self.path@,
            r.query@ == self.query@,
            r.query_all@ == self.query_all@,
            r.fragment is None,
    {
        let mut next = self.copy();
        next.fragment = None;
        next
    }
}

} // verus!
