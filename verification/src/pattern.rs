//! Route patterns: matching `/orders/:id`, `:param?` and `*splat` patterns
//! against routes, and building routes from patterns and parameters.

use vstd::prelude::*;
use vstd::slice::slice_subrange;
use crate::location::{
    RouteLocation, QueryView, lossy_decode, route_parts, query_all_of, frag_view,
    opt_string_view, parsed_as, parse_route_location, parse_route_pattern_location,
    route_string_bytes, route_string_of,
};
use crate::maps::{StrMap, QueryMap, assoc_get, assoc_put, assoc_remove, multi_push, first_values,
    strings_view, KeyOrder, compare_keys};
use crate::split::{split_parts, split_ranges};
use crate::text::{text_of, string_from_bytes, push_bytes, percent_encode, encode_component_into, str_bytes,
    decode_component_bytes};
use crate::urlparts::starts_with_byte;

verus! {

/// The non-empty pieces among `parts`, in order.
pub open spec fn seg_filter(parts: Seq<Seq<u8>>) -> Seq<Seq<u8>>
    decreases parts.len(),
{
    if parts.len() == 0 {
        Seq::empty()
    } else if parts.last().len() > 0 {
        seg_filter(parts.drop_last()).push(parts.last())
    } else {
        seg_filter(parts.drop_last())
    }
}

/// The non-empty `/`-separated segments of a path.
pub open spec fn path_segments(p: Seq<u8>) -> Seq<Seq<u8>> {
    seg_filter(split_parts(p, 0x2f, 0x2f))
}

pub open spec fn bytes_of(v: Seq<Vec<u8>>) -> Seq<Seq<u8>> {
    v.map_values(|x: Vec<u8>| x@)
}

/// Name of an optional `:name?` segment.
pub open spec fn optional_name(seg: Seq<u8>) -> Option<Seq<u8>> {
    if seg.len() >= 3 && seg[0] == 0x3a && seg.last() == 0x3f {
        Some(seg.subrange(1, seg.len() - 1))
    } else {
        None
    }
}

/// Name of a required `:name` segment.
pub open spec fn required_name(seg: Seq<u8>) -> Option<Seq<u8>> {
    if seg.len() >= 2 && seg[0] == 0x3a && seg.last() != 0x3f {
        Some(seg.drop_first())
    } else {
        None
    }
}

/// The decoded text of a path segment.
pub open spec fn seg_text(seg: Seq<u8>) -> Seq<char> {
    lossy_decode(seg, false)
}

/// `parts` joined with `sep` between neighbours.
pub open spec fn join_chars(parts: Seq<Seq<char>>, sep: char) -> Seq<char>
    decreases parts.len(),
{
    if parts.len() == 0 {
        Seq::empty()
    } else if parts.len() == 1 {
        parts[0]
    } else {
        join_chars(parts.drop_last(), sep).push(sep) + parts.last()
    }
}

/// Parameters captured when pattern segments `ps[pi..]` match route segments
/// `rs[ri..]`, given those captured so far. An optional segment first tries
/// to take a route segment and, failing that, matches nothing; a splat must
/// be last and takes the rest.
pub open spec fn match_segs(
    ps: Seq<Seq<u8>>,
    rs: Seq<Seq<u8>>,
    pi: int,
    ri: int,
    params: Seq<(Seq<char>, Seq<char>)>,
) -> Option<Seq<(Seq<char>, Seq<char>)>>
    decreases ps.len() - pi,
{
    if pi < 0 || pi >= ps.len() {
        if ri == rs.len() { Some(params) } else { None }
    } else {
        let seg = ps[pi];
        if starts_with_byte(seg, 0x2a) {
            if pi + 1 != ps.len() {
                None
            } else if seg.len() == 1 {
                Some(params)
            } else {
                let value = join_chars(rs.subrange(ri, rs.len() as int).map_values(|x: Seq<u8>| seg_text(x)), '/');
                Some(assoc_put(params, text_of(seg.drop_first()), value))
            }
        } else if optional_name(seg) is Some {
            let name = text_of(optional_name(seg).unwrap());
            if ri < rs.len() {
                match match_segs(ps, rs, pi + 1, ri + 1, assoc_put(params, name, seg_text(rs[ri]))) {
                    Some(m) => Some(m),
                    None => match_segs(ps, rs, pi + 1, ri, params),
                }
            } else {
                match_segs(ps, rs, pi + 1, ri, params)
            }
        } else if required_name(seg) is Some {
            if ri >= rs.len() {
                None
            } else {
                match_segs(ps, rs, pi + 1, ri + 1, assoc_put(params, text_of(required_name(seg).unwrap()), seg_text(rs[ri])))
            }
        } else if ri >= rs.len() || seg_text(seg) != seg_text(rs[ri]) {
            None
        } else {
            match_segs(ps, rs, pi + 1, ri + 1, params)
        }
    }
}

/// The parameters of a path matched against a pattern path.
pub open spec fn match_path(pattern_path: Seq<u8>, route_path: Seq<u8>) -> Option<Seq<(Seq<char>, Seq<char>)>> {
    match_segs(path_segments(pattern_path), path_segments(route_path), 0, 0, Seq::empty())
}

pub open spec fn opt_map_view(r: Option<StrMap>) -> Option<Seq<(Seq<char>, Seq<char>)>> {
    match r {
        Some(m) => Some(m@),
        None => None,
    }
}

/// Splits a path into its non-empty segments.
pub fn segments(p: &[u8]) -> (r: Vec<Vec<u8>>)
    ensures
        bytes_of(r@) == path_segments(p@),
{
    let ranges = split_ranges(p, 0x2f, 0x2f);
    let ghost parts = split_parts(p@, 0x2f, 0x2f);
    let mut r: Vec<Vec<u8>> = Vec::new();
    let mut j: usize = 0;
    assert(parts.take(0) =~= Seq::<Seq<u8>>::empty());
    while j < ranges.len()
        invariant
            j <= ranges@.len(),
            ranges@.len() == parts.len(),
            parts == split_parts(p@, 0x2f, 0x2f),
            forall|i: int| #![trigger ranges@[i]] 0 <= i < ranges@.len() ==> {
                &&& ranges@[i].0 <= ranges@[i].1 <= p@.len()
                &&& p@.subrange(ranges@[i].0 as int, ranges@[i].1 as int) == split_parts(p@, 0x2f, 0x2f)[i]
            },
            bytes_of(r@) == seg_filter(parts.take(j as int)),
        decreases ranges@.len() - j,
    {
        let (a, b) = ranges[j];
        assert(parts.take(j + 1).drop_last() =~= parts.take(j as int));
        assert(parts.take(j + 1).last() == parts[j as int]);
        if a < b {
            let s = slice_subrange(p, a, b);
            let mut v: Vec<u8> = Vec::new();
            let mut k: usize = 0;
            while k < s.len()
                invariant
                    k <= s@.len(),
                    v@ == s@.subrange(0, k as int),
                decreases s@.len() - k,
            {
                v.push(s[k]);
                assert(s@.subrange(0, k + 1) =~= s@.subrange(0, k as int).push(s@[k as int]));
                k = k + 1;
            }
            assert(s@.subrange(0, s@.len() as int) =~= s@);
            let ghost before = r@;
            r.push(v);
            assert(bytes_of(r@) =~= bytes_of(before).push(v@));
        }
        j = j + 1;
    }
    assert(parts.take(ranges@.len() as int) =~= parts);
    r
}

fn bytes_to_string(b: &[u8]) -> (s: String)
    ensures
        s@ == text_of(b@),
{
    string_from_bytes(b)
}

fn seg_string(seg: &[u8]) -> (s: String)
    ensures
        s@ == seg_text(seg@),
{
    let d = decode_component_bytes(seg, false);
    string_from_bytes(d.as_slice())
}

fn optional_name_of(seg: &Vec<u8>) -> (r: Option<String>)
    ensures
        match r {
            Some(n) => optional_name(seg@) is Some && n@ == text_of(optional_name(seg@).unwrap()),
            None => optional_name(seg@) is None,
        },
{
    let n = seg.len();
    if n >= 3 && seg[0] == 0x3a && seg[n - 1] == 0x3f {
        Some(bytes_to_string(slice_subrange(seg.as_slice(), 1, n - 1)))
    } else {
        None
    }
}

fn required_name_of(seg: &Vec<u8>) -> (r: Option<String>)
    ensures
        match r {
            Some(n) => required_name(seg@) is Some && n@ == text_of(required_name(seg@).unwrap()),
            None => required_name(seg@) is None,
        },
{
    let n = seg.len();
    if n >= 2 && seg[0] == 0x3a && seg[n - 1] != 0x3f {
        let s = slice_subrange(seg.as_slice(), 1, n);
        assert(s@ =~= seg@.drop_first());
        Some(bytes_to_string(s))
    } else {
        None
    }
}

/// The decoded route segments from `from` on, joined with `/`.
fn join_decoded(rs: &Vec<Vec<u8>>, from: usize) -> (s: String)
    requires
        from <= rs@.len(),
    ensures
        s@ == join_chars(bytes_of(rs@).subrange(from as int, rs@.len() as int).map_values(|x: Seq<u8>| seg_text(x)), '/'),
{
    let mut s = String::new();
    let mut i = from;
    let ghost all = bytes_of(rs@).subrange(from as int, rs@.len() as int).map_values(|x: Seq<u8>| seg_text(x));
    proof {
        reveal_strlit("/");
        assert(all.take(0) =~= Seq::<Seq<char>>::empty());
    }
    while i < rs.len()
        invariant
            from <= i <= rs@.len(),
            all == bytes_of(rs@).subrange(from as int, rs@.len() as int).map_values(|x: Seq<u8>| seg_text(x)),
            s@ == join_chars(all.take(i - from), '/'),
        decreases rs@.len() - i,
    {
        proof {
            reveal_strlit("/");
        }
        let part = seg_string(rs[i].as_slice());
        if i > from {
            s.append("/");
        }
        s.append(part.as_str());
        assert(all[i - from] == seg_text(rs@[i as int]@));
        assert(all.take(i + 1 - from).drop_last() =~= all.take(i - from));
        assert(all.take(i + 1 - from).last() == all[i - from]);
        i = i + 1;
    }
    assert(all.take(rs@.len() - from) =~= all);
    s
}

/// Matches pattern segments `ps[pi..]` against route segments `rs[ri..]`.
pub fn match_path_segments(
    ps: &Vec<Vec<u8>>,
    rs: &Vec<Vec<u8>>,
    pi: usize,
    ri: usize,
    params: StrMap,
) -> (r: Option<StrMap>)
    requires
        pi <= ps@.len(),
        ri <= rs@.len(),
    ensures
        opt_map_view(r) == match_segs(bytes_of(ps@), bytes_of(rs@), pi as int, ri as int, params@),
    decreases ps@.len() - pi,
{
    let ghost pss = bytes_of(ps@);
    let ghost rss = bytes_of(rs@);
    if pi == ps.len() {
        return if ri == rs.len() { Some(params) } else { None };
    }
    let seg = &ps[pi];
    assert(pss[pi as int] == seg@);
    if seg.len() > 0 && seg[0] == 0x2a {
        if pi + 1 != ps.len() {
            return None;
        }
        let mut params = params;
        if seg.len() > 1 {
            let value = join_decoded(rs, ri);
            let name = bytes_to_string(slice_subrange(seg.as_slice(), 1, seg.len()));
            assert(seg@.subrange(1, seg@.len() as int) =~= seg@.drop_first());
            assert(rss.subrange(ri as int, rss.len() as int) =~= bytes_of(rs@).subrange(ri as int, rs@.len() as int));
            params.insert(name, value);
        }
        return Some(params);
    }
    if let Some(name) = optional_name_of(seg) {
        if ri < rs.len() {
            let mut consumed = params.copy();
            assert(rss[ri as int] == rs@[ri as int]@);
            consumed.insert(name, seg_string(rs[ri].as_slice()));
            let matched = match_path_segments(ps, rs, pi + 1, ri + 1, consumed);
            if matched.is_some() {
                return matched;
            }
        }
        return match_path_segments(ps, rs, pi + 1, ri, params);
    }
    if let Some(name) = required_name_of(seg) {
        if ri >= rs.len() {
            return None;
        }
        let mut params = params;
        assert(rss[ri as int] == rs@[ri as int]@);
        params.insert(name, seg_string(rs[ri].as_slice()));
        return match_path_segments(ps, rs, pi + 1, ri + 1, params);
    }
    if ri >= rs.len() {
        return None;
    }
    assert(rss[ri as int] == rs@[ri as int]@);
    let a = seg_string(seg.as_slice());
    let b = seg_string(rs[ri].as_slice());
    if compare_keys(a.as_str(), b.as_str()) != KeyOrder::Equal {
        return None;
    }
    match_path_segments(ps, rs, pi + 1, ri + 1, params)
}

/// Matches a pattern path against a route path.
pub fn match_path_params(pattern_path: &str, route_path: &str) -> (r: Option<StrMap>)
    ensures
        opt_map_view(r) == match_path(str_bytes(pattern_path@), str_bytes(route_path@)),
{
    let ps = segments(pattern_path.as_bytes());
    let rs = segments(route_path.as_bytes());
    match_path_segments(&ps, &rs, 0, 0, StrMap::new())
}

/// Matches a route `pattern` against a concrete `route`: static segments,
/// `:param` captures, optional `:param?` captures and a final `*splat`.
/// Query and fragment are ignored. Returns the decoded parameters.
pub fn match_route(pattern: &str, route: &str) -> (r: Option<StrMap>)
    ensures
        opt_map_view(r) == match_path(
            str_bytes(text_of(route_parts(str_bytes(pattern@), true).0)),
            str_bytes(text_of(route_parts(str_bytes(route@), false).0)),
        ),
{
    let pattern_location = parse_route_pattern_location(pattern);
    let route_location = parse_route_location(route);
    match_path_params(pattern_location.path.as_str(), route_location.path.as_str())
}


/// A successful declarative route match.
#[derive(Debug)]
pub struct RouteMatch {
    /// The route pattern that matched, e.g. `"/orders/:id"`.
    pub pattern: String,
    /// Normalised path that matched, without query or fragment.
    pub path: String,
    /// Decoded `:param` values captured from the path.
    pub params: StrMap,
    /// First decoded value of each query key.
    pub query: StrMap,
    /// All decoded values of each query key.
    pub query_all: QueryMap,
    /// Decoded fragment without the leading `#`, when present.
    pub fragment: Option<String>,
}

/// Every query constraint of a pattern holds in the route's query.
pub open spec fn query_constraints_hold(pattern_query: Seq<(Seq<char>, Seq<char>)>, route_query: Seq<(Seq<char>, Seq<char>)>) -> bool {
    forall|i: int| 0 <= i < pattern_query.len() ==> assoc_get(route_query, #[trigger] pattern_query[i].0) == Some(pattern_query[i].1)
}

/// Whether each `(key, value)` of the pattern's query is the route's first
/// value of that key.
pub fn query_constraints_match(pattern_query: &StrMap, route_query: &StrMap) -> (b: bool)
    ensures
        b == query_constraints_hold(pattern_query@, route_query@),
{
    let n = pattern_query.len();
    let mut i: usize = 0;
    while i < n
        invariant
            n == pattern_query@.len(),
            i <= n,
            forall|j: int| 0 <= j < i ==> assoc_get(route_query@, #[trigger] pattern_query@[j].0) == Some(pattern_query@[j].1),
        decreases n - i,
    {
        let k = pattern_query.key_at(i);
        let v = pattern_query.value_at(i);
        match route_query.get(k.as_str()) {
            Some(rv) => {
                if compare_keys(rv.as_str(), v.as_str()) != KeyOrder::Equal {
                    return false;
                }
            },
            None => {
                return false;
            },
        }
        i = i + 1;
    }
    true
}

/// Whether a route pattern (bytes `pb`) accepts a location: the path must
/// match, each query constraint of the pattern must hold, and a fragment in
/// the pattern must equal the location's.
pub open spec fn pattern_accepts(pb: Seq<u8>, loc: RouteLocation) -> bool {
    let p = route_parts(pb, true);
    &&& match_path(str_bytes(text_of(p.0)), str_bytes(loc.path@)) is Some
    &&& query_constraints_hold(first_values(query_all_of(p.1)), loc.query@)
    &&& (p.2 is Some ==> opt_string_view(loc.fragment) == frag_view(p.2))
}

/// The route state captured when a pattern accepts a location.
pub open spec fn match_holds(m: RouteMatch, pattern: Seq<char>, loc: RouteLocation) -> bool {
    let p = route_parts(str_bytes(pattern), true);
    &&& m.pattern@ == pattern
    &&& m.path@ == loc.path@
    &&& Some(m.params@) == match_path(str_bytes(text_of(p.0)), str_bytes(loc.path@))
    &&& m.query@ == loc.query@
    &&& m.query_all@ == loc.query_all@
    &&& opt_string_view(m.fragment) == opt_string_view(loc.fragment)
}

fn same_text(a: &str, b: &str) -> (r: bool)
    ensures
        r == (a@ == b@),
{
    compare_keys(a, b) == KeyOrder::Equal
}

/// Matches a location against a route pattern.
pub fn match_route_definition(pattern: &str, location: RouteLocation) -> (r: Option<RouteMatch>)
    ensures
        r is Some <==> pattern_accepts(str_bytes(pattern@), location),
        r matches Some(m) ==> match_holds(m, pattern@, location),
{
    let pl = parse_route_pattern_location(pattern);
    let params = match match_path_params(pl.path.as_str(), location.path.as_str()) {
        Some(p) => p,
        None => {
            return None;
        },
    };
    if !query_constraints_match(&pl.query, &location.query) {
        return None;
    }
    if let Some(pf) = &pl.fragment {
        let same = match &location.fragment {
            Some(lf) => same_text(lf.as_str(), pf.as_str()),
            None => false,
        };
        if !same {
            return None;
        }
    }
    Some(RouteMatch {
        pattern: pattern.to_owned(),
        path: location.path,
        params,
        query: location.query,
        query_all: location.query_all,
        fragment: location.fragment,
    })
}


/// Matches a route pattern against a route or URL and returns the route
/// state a screen needs.
pub fn match_route_location(pattern: &str, route: &str) -> (r: Option<RouteMatch>)
    ensures
        forall|loc: RouteLocation| parsed_as(loc, str_bytes(route@), false) ==> {
            &&& (r is Some <==> pattern_accepts(str_bytes(pattern@), loc))
            &&& (r matches Some(m) ==> match_holds(m, pattern@, loc))
        },
{
    let location = parse_route_location(route);
    let r = match_route_definition(pattern, location);
    proof {
        assert forall|loc: RouteLocation| parsed_as(loc, str_bytes(route@), false) implies {
            &&& (r is Some <==> pattern_accepts(str_bytes(pattern@), loc))
            &&& (r matches Some(m) ==> match_holds(m, pattern@, loc))
        } by {
            assert(loc.path@ == location.path@);
            assert(loc.query@ == location.query@);
            assert(loc.query_all@ == location.query_all@);
            assert(opt_string_view(loc.fragment) == opt_string_view(location.fragment));
        }
    }
    r
}

impl RouteMatch {
    /// A decoded path parameter.
    pub fn param(&self, key: &str) -> (r: Option<&str>)
        ensures
            (match r { Some(v) => Some(v@), None => None }) == assoc_get(self.params@, key@),
    {
        match self.params.get(key) {
            Some(v) => Some(v.as_str()),
            None => None,
        }
    }

    /// The first decoded query value of `key`.
    pub fn query_value(&self, key: &str) -> (r: Option<&str>)
        ensures
            (match r { Some(v) => Some(v@), None => None }) == assoc_get(self.query@, key@),
    {
        match self.query.get(key) {
            Some(v) => Some(v.as_str()),
            None => None,
        }
    }

    /// All decoded query values of `key`.
    pub fn query_values(&self, key: &str) -> (r: Option<&[String]>)
        ensures
            (match r { Some(v) => Some(strings_view(v@)), None => None }) == assoc_get(self.query_all@, key@),
    {
        match self.query_all.get(key) {
            Some(v) => Some(v.as_slice()),
            None => None,
        }
    }
}

/// A declarative URL route: a pattern and what renders its matches.
pub struct UrlRoute<F> {
    pattern: String,
    render: F,
}

/// Creates a declarative URL route from a pattern and a renderer.
pub fn route<F>(pattern: &str, render: F) -> (r: UrlRoute<F>)
    ensures
        r.pattern_text() == pattern@,
        r.render_fn() == render,
{
    UrlRoute { pattern: pattern.to_owned(), render }
}

impl<F> UrlRoute<F> {
    pub closed spec fn pattern_text(&self) -> Seq<char> {
        self.pattern@
    }

    /// What renders this route's matches.
    pub closed spec fn render_fn(&self) -> F {
        self.render
    }

    /// The route pattern.
    pub fn pattern(&self) -> (r: &str)
        ensures
            r@ == self.pattern_text(),
    {
        self.pattern.as_str()
    }

    /// The renderer of this route.
    pub fn renderer(&self) -> (r: &F)
        ensures
            *r == self.render_fn(),
    {
        &self.render
    }

    /// Matches this route against `route`, returning the captured state.
    pub fn matches(&self, route: &str) -> (r: Option<RouteMatch>)
        ensures
            forall|loc: RouteLocation| parsed_as(loc, str_bytes(route@), false) ==> {
                &&& (r is Some <==> pattern_accepts(str_bytes(self.pattern_text()), loc))
                &&& (r matches Some(m) ==> match_holds(m, self.pattern_text(), loc))
            },
    {
        match_route_location(self.pattern.as_str(), route)
    }
}


/// Encoded route segments for pattern segments `ps[i..]` and parameters, or
/// `None` when a required parameter or a named splat value is missing (or
/// empty for a `:param`), or a splat is not last.
pub open spec fn build_segs(ps: Seq<Seq<u8>>, i: int, params: Seq<(Seq<char>, Seq<char>)>) -> Option<Seq<Seq<u8>>>
    decreases ps.len() - i,
{
    if i < 0 || i >= ps.len() {
        Some(Seq::empty())
    } else {
        let seg = ps[i];
        if starts_with_byte(seg, 0x2a) {
            if i + 1 != ps.len() {
                None
            } else if seg.len() == 1 {
                Some(Seq::empty())
            } else {
                match assoc_get(params, text_of(seg.drop_first())) {
                    None => None,
                    Some(v) => Some(path_segments(str_bytes(v)).map_values(|x: Seq<u8>| percent_encode(x, false, false))),
                }
            }
        } else {
            match build_segs(ps, i + 1, params) {
                None => None,
                Some(rest) => {
                    if optional_name(seg) is Some {
                        match assoc_get(params, text_of(optional_name(seg).unwrap())) {
                            Some(v) => if v.len() > 0 {
                                Some(seq![percent_encode(str_bytes(v), false, false)] + rest)
                            } else {
                                Some(rest)
                            },
                            None => Some(rest),
                        }
                    } else if required_name(seg) is Some {
                        match assoc_get(params, text_of(required_name(seg).unwrap())) {
                            Some(v) => if v.len() > 0 {
                                Some(seq![percent_encode(str_bytes(v), false, false)] + rest)
                            } else {
                                None
                            },
                            None => None,
                        }
                    } else {
                        Some(seq![percent_encode(str_bytes(seg_text(seg)), false, false)] + rest)
                    }
                },
            }
        }
    }
}

/// Bytes of `/` followed by the segments joined with `/` (just `/` when
/// there are none).
pub open spec fn slash_path(segs: Seq<Seq<u8>>) -> Seq<u8> {
    seq![0x2fu8] + join_segs(segs)
}

pub open spec fn join_segs(parts: Seq<Seq<u8>>) -> Seq<u8>
    decreases parts.len(),
{
    if parts.len() == 0 {
        Seq::empty()
    } else if parts.len() == 1 {
        parts[0]
    } else {
        join_segs(parts.drop_last()) + seq![0x2fu8] + parts.last()
    }
}

/// The route path built from a pattern path and parameters.
pub open spec fn built_path(pattern_path: Seq<u8>, params: Seq<(Seq<char>, Seq<char>)>) -> Option<Seq<u8>> {
    match build_segs(path_segments(pattern_path), 0, params) {
        None => None,
        Some(segs) => Some(slash_path(segs)),
    }
}

/// Parameters collected from pairs; a later pair wins for a repeated key.
pub open spec fn params_fold(pairs: Seq<(Seq<char>, Seq<char>)>) -> Seq<(Seq<char>, Seq<char>)>
    decreases pairs.len(),
{
    if pairs.len() == 0 {
        Seq::empty()
    } else {
        assoc_put(params_fold(pairs.drop_last()), pairs.last().0, pairs.last().1)
    }
}

pub open spec fn pairs_view(pairs: Seq<(&str, &str)>) -> Seq<(Seq<char>, Seq<char>)> {
    pairs.map_values(|p: (&str, &str)| (p.0@, p.1@))
}

fn encoded_segment(b: &[u8]) -> (r: Vec<u8>)
    ensures
        r@ == percent_encode(b@, false, false),
{
    let mut out: Vec<u8> = Vec::new();
    encode_component_into(&mut out, b, false, false);
    assert(out@ =~= percent_encode(b@, false, false));
    out
}

/// Encoded segments of a splat value.
fn splat_segments(v: &str) -> (r: Vec<Vec<u8>>)
    ensures
        bytes_of(r@) == path_segments(str_bytes(v@)).map_values(|x: Seq<u8>| percent_encode(x, false, false)),
{
    let parts = segments(v.as_bytes());
    let mut r: Vec<Vec<u8>> = Vec::new();
    let mut i: usize = 0;
    let ghost ps = bytes_of(parts@);
    while i < parts.len()
        invariant
            i <= parts@.len(),
            ps == bytes_of(parts@),
            bytes_of(r@) =~= ps.take(i as int).map_values(|x: Seq<u8>| percent_encode(x, false, false)),
        decreases parts@.len() - i,
    {
        let e = encoded_segment(parts[i].as_slice());
        let ghost before = r@;
        r.push(e);
        assert(bytes_of(r@) =~= bytes_of(before).push(e@));
        assert(ps.take(i + 1) =~= ps.take(i as int).push(ps[i as int]));
        i = i + 1;
    }
    assert(ps.take(parts@.len() as int) =~= ps);
    r
}

/// `a` in front of the segments, if there are any.
pub open spec fn opt_prepend(a: Seq<Seq<u8>>, o: Option<Seq<Seq<u8>>>) -> Option<Seq<Seq<u8>>> {
    match o {
        Some(x) => Some(a + x),
        None => None,
    }
}

pub proof fn lemma_opt_prepend_assoc(a: Seq<Seq<u8>>, c: Seq<Seq<u8>>, o: Option<Seq<Seq<u8>>>)
    ensures
        opt_prepend(a, opt_prepend(c, o)) == opt_prepend(a + c, o),
{
    if o is Some {
        assert(a + (c + o.unwrap()) =~= (a + c) + o.unwrap());
    }
}

/// Builds a route path from a pattern path and decoded parameters.
pub fn build_route_path(pattern_path: &str, params: &StrMap) -> (r: Option<String>)
    ensures
        match r {
            Some(s) => built_path(str_bytes(pattern_path@), params@) is Some
                && s@ == text_of(built_path(str_bytes(pattern_path@), params@).unwrap()),
            None => built_path(str_bytes(pattern_path@), params@) is None,
        },
{
    let ps = segments(pattern_path.as_bytes());
    let ghost pss = bytes_of(ps@);
    let n = ps.len();
    let mut out: Vec<Vec<u8>> = Vec::new();
    let mut i: usize = 0;
    assert(bytes_of(out@) =~= Seq::<Seq<u8>>::empty());
    while i < n
        invariant
            n == ps@.len(),
            pss == bytes_of(ps@),
            pss == path_segments(str_bytes(pattern_path@)),
            i <= n,
            build_segs(pss, 0, params@) == opt_prepend(bytes_of(out@), build_segs(pss, i as int, params@)),
        ensures
            build_segs(pss, 0, params@) == Some(bytes_of(out@)),
        decreases n - i,
    {
        let seg = &ps[i];
        assert(pss[i as int] == seg@);
        if seg.len() > 0 && seg[0] == 0x2a {
            if i + 1 != n {
                return None;
            }
            if seg.len() > 1 {
                let name = bytes_to_string(slice_subrange(seg.as_slice(), 1, seg.len()));
                assert(seg@.subrange(1, seg@.len() as int) =~= seg@.drop_first());
                match params.get(name.as_str()) {
                    None => {
                        return None;
                    },
                    Some(v) => {
                        let extra = splat_segments(v.as_str());
                        let mut k: usize = 0;
                        let ghost base = bytes_of(out@);
                        while k < extra.len()
                            invariant
                                k <= extra@.len(),
                                bytes_of(out@) =~= base + bytes_of(extra@).take(k as int),
                            decreases extra@.len() - k,
                        {
                            let ghost before = out@;
                            let e = encoded_copy(&extra[k]);
                            out.push(e);
                            assert(bytes_of(out@) =~= bytes_of(before).push(e@));
                            assert(bytes_of(extra@).take(k + 1) =~= bytes_of(extra@).take(k as int).push(extra@[k as int]@));
                            k = k + 1;
                        }
                        assert(bytes_of(extra@).take(extra@.len() as int) =~= bytes_of(extra@));
                        assert(build_segs(pss, i as int, params@) == Some(bytes_of(extra@)));
                    },
                }
            } else {
                assert(bytes_of(out@) + Seq::<Seq<u8>>::empty() =~= bytes_of(out@));
            }
            i = n;
            assert(build_segs(pss, n as int, params@) == Some(Seq::<Seq<u8>>::empty()));
            assert(bytes_of(out@) + Seq::<Seq<u8>>::empty() =~= bytes_of(out@));
            break;
        }
        let ghost old_out = bytes_of(out@);
        let ghost mut added: Seq<Seq<u8>> = Seq::empty();
        if let Some(name) = optional_name_of(seg) {
            match params.get(name.as_str()) {
                Some(v) => {
                    if !v.as_str().is_empty() {
                        let e = encoded_segment(v.as_str().as_bytes());
                        out.push(e);
                        proof {
                            added = seq![e@];
                        }
                    }
                },
                None => {},
            }
        } else if let Some(name) = required_name_of(seg) {
            match params.get(name.as_str()) {
                Some(v) => {
                    if v.as_str().is_empty() {
                        return None;
                    }
                    let e = encoded_segment(v.as_str().as_bytes());
                    out.push(e);
                    proof {
                        added = seq![e@];
                    }
                },
                None => {
                    return None;
                },
            }
        } else {
            let t = seg_string(seg.as_slice());
            let e = encoded_segment(t.as_str().as_bytes());
            out.push(e);
            proof {
                added = seq![e@];
            }
        }
        proof {
            assert(bytes_of(out@) =~= old_out + added);
            assert(build_segs(pss, i as int, params@) == opt_prepend(added, build_segs(pss, i + 1, params@)));
            lemma_opt_prepend_assoc(old_out, added, build_segs(pss, i + 1, params@));
        }
        i = i + 1;
    }
    let ghost segs = bytes_of(out@);
    let mut path: Vec<u8> = Vec::new();
    path.push(0x2f);
    let mut j: usize = 0;
    assert(segs.take(0) =~= Seq::<Seq<u8>>::empty());
    while j < out.len()
        invariant
            j <= out@.len(),
            segs == bytes_of(out@),
            path@ == seq![0x2fu8] + join_segs(segs.take(j as int)),
        decreases out@.len() - j,
    {
        if j > 0 {
            path.push(0x2f);
        }
        push_bytes(&mut path, out[j].as_slice());
        assert(segs.take(j + 1).drop_last() =~= segs.take(j as int));
        assert(segs.take(j + 1).last() == out@[j as int]@);
        j = j + 1;
    }
    assert(segs.take(out@.len() as int) =~= segs);
    Some(string_from_bytes(path.as_slice()))
}

fn encoded_copy(v: &Vec<u8>) -> (r: Vec<u8>)
    ensures
        r@ == v@,
{
    let mut r: Vec<u8> = Vec::new();
    push_bytes(&mut r, v.as_slice());
    assert(r@ =~= v@);
    r
}


/// The query map and the keys replaced so far after applying query pairs:
/// the first pair of a key replaces the key's values from the pattern,
/// later pairs of the key add values; pairs with an empty key are skipped.
pub open spec fn apply_query(qa: QueryView, pairs: Seq<(Seq<char>, Seq<char>)>) -> (QueryView, Seq<Seq<char>>)
    decreases pairs.len(),
{
    if pairs.len() == 0 {
        (qa, Seq::empty())
    } else {
        let prev = apply_query(qa, pairs.drop_last());
        let k = pairs.last().0;
        let v = pairs.last().1;
        if k.len() == 0 {
            prev
        } else if prev.1.contains(k) {
            (multi_push(prev.0, k, v), prev.1)
        } else {
            (multi_push(assoc_remove(prev.0, k), k, v), prev.1.push(k))
        }
    }
}

/// The route built from a pattern, path parameters and query pairs, as
/// text; `None` when the path cannot be built.
pub open spec fn built_route(pattern: Seq<char>, params: Seq<(Seq<char>, Seq<char>)>, query: Seq<(Seq<char>, Seq<char>)>) -> Option<Seq<char>> {
    let p = route_parts(str_bytes(pattern), true);
    match built_path(str_bytes(text_of(p.0)), params_fold(params)) {
        None => None,
        Some(pb) => Some(text_of(route_string_bytes(text_of(pb), apply_query(query_all_of(p.1), query).0, frag_view(p.2)))),
    }
}

/// Collects parameter pairs into a map; a later pair wins.
pub fn collect_route_params(params: &[(&str, &str)]) -> (r: StrMap)
    ensures
        r@ == params_fold(pairs_view(params@)),
{
    let mut m = StrMap::new();
    let mut i: usize = 0;
    let ghost pv = pairs_view(params@);
    assert(pv.take(0) =~= Seq::<(Seq<char>, Seq<char>)>::empty());
    while i < params.len()
        invariant
            i <= params@.len(),
            pv == pairs_view(params@),
            m@ == params_fold(pv.take(i as int)),
        decreases params@.len() - i,
    {
        let (k, v) = params[i];
        m.insert(k.to_owned(), v.to_owned());
        assert(pv.take(i + 1).drop_last() =~= pv.take(i as int));
        assert(pv.take(i + 1).last() == pv[i as int]);
        i = i + 1;
    }
    assert(pv.take(params@.len() as int) =~= pv);
    m
}

fn seen_contains(seen: &Vec<String>, k: &str) -> (b: bool)
    ensures
        b == strings_view(seen@).contains(k@),
{
    let mut i: usize = 0;
    while i < seen.len()
        invariant
            i <= seen@.len(),
            forall|j: int| 0 <= j < i ==> strings_view(seen@)[j] != k@,
        decreases seen@.len() - i,
    {
        if compare_keys(seen[i].as_str(), k) == KeyOrder::Equal {
            assert(strings_view(seen@)[i as int] == k@);
            return true;
        }
        i = i + 1;
    }
    false
}

/// Builds a route from a pattern, decoded path parameters and decoded query
/// pairs. Query pairs may repeat keys; they replace the pattern's query
/// constraints of the same key, other constraints stay.
pub fn build_route_with_query(pattern: &str, params: &[(&str, &str)], query: &[(&str, &str)]) -> (r: Option<String>)
    ensures
        (match r { Some(s) => Some(s@), None => None }) == built_route(pattern@, pairs_view(params@), pairs_view(query@)),
{
    let pattern_location = parse_route_pattern_location(pattern);
    let params_map = collect_route_params(params);
    let path = match build_route_path(pattern_location.path.as_str(), &params_map) {
        Some(p) => p,
        None => {
            return None;
        },
    };
    let mut query_all = pattern_location.query_all;
    let mut seen: Vec<String> = Vec::new();
    let ghost qv = pairs_view(query@);
    let ghost qa0 = query_all@;
    let mut i: usize = 0;
    assert(qv.take(0) =~= Seq::<(Seq<char>, Seq<char>)>::empty());
    while i < query.len()
        invariant
            i <= query@.len(),
            qv == pairs_view(query@),
            query_all@ == apply_query(qa0, qv.take(i as int)).0,
            strings_view(seen@) == apply_query(qa0, qv.take(i as int)).1,
        decreases query@.len() - i,
    {
        let (k, v) = query[i];
        assert(qv.take(i + 1).drop_last() =~= qv.take(i as int));
        assert(qv.take(i + 1).last() == qv[i as int]);
        if !k.is_empty() {
            if !seen_contains(&seen, k) {
                query_all.remove(k);
                let ghost before = seen@;
                let ks = k.to_owned();
                seen.push(ks);
                assert(strings_view(seen@) =~= strings_view(before).push(k@));
            }
            query_all.push_value(k.to_owned(), v.to_owned());
        }
        i = i + 1;
    }
    assert(qv.take(query@.len() as int) =~= qv);
    let b = route_string_of(path.as_str(), &query_all, &pattern_location.fragment);
    Some(string_from_bytes(b.as_slice()))
}

/// Builds a route from a pattern and decoded path parameters: missing
/// required `:param` or named `*splat` values give `None`, optional
/// `:param?` segments are left out when missing or empty.
pub fn build_route(pattern: &str, params: &[(&str, &str)]) -> (r: Option<String>)
    ensures
        (match r { Some(s) => Some(s@), None => None }) == built_route(pattern@, pairs_view(params@), Seq::empty()),
{
    let empty: Vec<(&str, &str)> = Vec::new();
    assert(pairs_view(empty@) =~= Seq::<(Seq<char>, Seq<char>)>::empty());
    build_route_with_query(pattern, params, empty.as_slice())
}


/// Index of the first route among `patterns` that accepts `location`.
pub open spec fn first_accepting(patterns: Seq<Seq<char>>, location: RouteLocation, from: int) -> Option<int>
    decreases patterns.len() - from,
{
    if from < 0 || from >= patterns.len() {
        None
    } else if pattern_accepts(str_bytes(patterns[from]), location) {
        Some(from)
    } else {
        first_accepting(patterns, location, from + 1)
    }
}

/// The route that is picked is the first that accepts: when a route at
/// `i` is picked, it accepts the location and no route before it (from
/// `from` on) does; when none is picked, no route from `from` on accepts it.
pub proof fn law_first_accepting_is_first(patterns: Seq<Seq<char>>, location: RouteLocation, from: int)
    requires
        0 <= from,
    ensures
        first_accepting(patterns, location, from) matches Some(i) ==> {
            &&& from <= i < patterns.len()
            &&& pattern_accepts(str_bytes(patterns[i]), location)
            &&& forall|j: int| from <= j < i ==> !pattern_accepts(str_bytes(#[trigger] patterns[j]), location)
        },
        first_accepting(patterns, location, from) is None
            <==> (forall|j: int| from <= j < patterns.len() ==> !pattern_accepts(str_bytes(#[trigger] patterns[j]), location)),
    decreases patterns.len() - from,
{
    if from < patterns.len() && !pattern_accepts(str_bytes(patterns[from]), location) {
        law_first_accepting_is_first(patterns, location, from + 1);
    }
}

pub open spec fn route_patterns<F>(routes: Seq<UrlRoute<F>>) -> Seq<Seq<char>> {
    routes.map_values(|r: UrlRoute<F>| r.pattern_text())
}

fn copy_location(l: &RouteLocation) -> (r: RouteLocation)
    ensures
        r.path@ == l.path@,
        r.query@ == l.query@,
        r.query_all@ == l.query_all@,
        opt_string_view(r.fragment) == opt_string_view(l.fragment),
{
    l.copy()
}

/// The first of `routes` whose pattern accepts `location`, with its match:
/// what a URL router renders (the not-found view when there is none).
pub fn select_url_route<F>(routes: &[UrlRoute<F>], location: &RouteLocation) -> (r: Option<(usize, RouteMatch)>)
    ensures
        (match r { Some((i, _)) => Some(i as int), None => None }) == first_accepting(route_patterns(routes@), *location, 0),
        r matches Some((i, m)) ==> match_holds(m, route_patterns(routes@)[i as int], *location),
        r matches Some((i, _)) ==> i < routes@.len()
            && pattern_accepts(str_bytes(route_patterns(routes@)[i as int]), *location)
            && forall|j: int| 0 <= j < i ==> !pattern_accepts(str_bytes(#[trigger] route_patterns(routes@)[j]), *location),
        r is None ==> forall|j: int| 0 <= j < routes@.len() ==> !pattern_accepts(str_bytes(#[trigger] route_patterns(routes@)[j]), *location),
{
    let mut i: usize = 0;
    let ghost pats = route_patterns(routes@);
    while i < routes.len()
        invariant
            i <= routes@.len(),
            pats == route_patterns(routes@),
            first_accepting(pats, *location, 0) == first_accepting(pats, *location, i as int),
        decreases routes@.len() - i,
    {
        assert(pats[i as int] == routes@[i as int].pattern_text());
        let loc = copy_location(location);
        match match_route_definition(routes[i].pattern(), loc) {
            Some(m) => {
                proof {
                    law_first_accepting_is_first(route_patterns(routes@), *location, 0);
                }
                return Some((i, m));
            },
            None => {},
        }
        i = i + 1;
    }
    proof {
        law_first_accepting_is_first(route_patterns(routes@), *location, 0);
    }
    None
}

} // verus!
