//! Round trips of routes: matching a built route against its pattern gives
//! the parameters back, and parsing a printed location gives it back.

use vstd::prelude::*;
use vstd::utf8::{decode_utf8, valid_utf8};
use crate::keychain::{law_get_after_set, law_set_keeps_other_keys};
use crate::location::{path_and_query_bytes, query_all_of, route_parts, route_string_bytes, frag_view, lossy_decode,
    QueryView, add_query_pair, query_fold, query_pairs, entry_pairs, pair_bytes, join_bytes, strip_question};
use crate::maps::{first_values, assoc_get, assoc_put, keys_sorted, lemma_assoc_put_sorted, multi_push, key_lt,
    lemma_key_lt_irreflexive, lemma_key_lt_transitive, lemma_bytes_lt_asymmetric};
use crate::pattern::{
    apply_query, build_segs, built_path, built_route, join_segs, match_path, match_segs, optional_name,
    params_fold, path_segments, required_name, seg_filter, seg_text, slash_path,
};
use crate::split::find_from;
use crate::trim::{trim_ws, strip_back, lemma_trim_bounds};
use crate::urlparts::{normalize_path, strip_url_prefix, starts_with_two, hash_route_part, after_byte, before_byte};
use crate::split::{parts_from, split_parts, lemma_split_around, lemma_split_whole};
use crate::text::{
    all_ascii, lemma_ascii_text, lemma_decode_nonempty, lemma_percent_decode_nonempty,
    lemma_percent_encode_ascii, lemma_percent_encode_len, lemma_segment_encoding_has_no_slash,
    lemma_segment_text_round_trip, lemma_str_bytes_nonempty, percent_decode, percent_encode,
    str_bytes, text_of, encode_byte, is_unreserved, lemma_encode_concat, law_decode_undoes_encode,
};
use vstd::utf8::{encode_utf8_valid_utf8, encode_utf8_decode_utf8, decode_utf8_encode_utf8, valid_utf8_concat};
use crate::urlparts::starts_with_byte;

verus! {

/// A static pattern segment with non-empty decoded text. Escapes such as
/// `%FF` that do not decode to valid UTF-8 are allowed.
pub open spec fn plain_segment(seg: Seq<u8>) -> bool {
    &&& !starts_with_byte(seg, 0x2au8)
    &&& optional_name(seg) is None
    &&& required_name(seg) is None
    &&& seg_text(seg).len() > 0
}

/// The parameter name of a `:name` segment.
pub open spec fn param_name(seg: Seq<u8>) -> Seq<char> {
    text_of(required_name(seg).unwrap())
}

/// A `:name` segment whose parameter has a non-empty value.
pub open spec fn filled_param(seg: Seq<u8>, params: Seq<(Seq<char>, Seq<char>)>) -> bool {
    &&& required_name(seg) is Some
    &&& assoc_get(params, param_name(seg)) is Some
    &&& assoc_get(params, param_name(seg)).unwrap().len() > 0
}

/// Every segment of the pattern is static or a filled `:name` parameter.
pub open spec fn buildable(ps: Seq<Seq<u8>>, params: Seq<(Seq<char>, Seq<char>)>) -> bool {
    forall|j: int| 0 <= j < ps.len() ==> plain_segment(#[trigger] ps[j]) || filled_param(ps[j], params)
}

/// The route segment built for one pattern segment.
pub open spec fn segment_encoding(seg: Seq<u8>, params: Seq<(Seq<char>, Seq<char>)>) -> Seq<u8> {
    if required_name(seg) is Some {
        percent_encode(str_bytes(assoc_get(params, param_name(seg)).unwrap()), false, false)
    } else {
        percent_encode(str_bytes(seg_text(seg)), false, false)
    }
}

/// The route segments built for pattern segments.
pub open spec fn encodings(ps: Seq<Seq<u8>>, params: Seq<(Seq<char>, Seq<char>)>) -> Seq<Seq<u8>> {
    ps.map_values(|seg: Seq<u8>| segment_encoding(seg, params))
}

/// `k` names a `:name` segment among `ps[i..]`.
pub open spec fn names_from(ps: Seq<Seq<u8>>, i: int, k: Seq<char>) -> bool {
    exists|j: int| i <= j < ps.len() && #[trigger] required_name(ps[j]) is Some && param_name(ps[j]) == k
}

pub proof fn lemma_seg_filter_concat(a: Seq<Seq<u8>>, b: Seq<Seq<u8>>)
    ensures
        seg_filter(a + b) == seg_filter(a) + seg_filter(b),
    decreases b.len(),
{
    if b.len() == 0 {
        assert(a + b =~= a);
        assert(seg_filter(a) + seg_filter(b) =~= seg_filter(a));
    } else {
        assert((a + b).drop_last() =~= a + b.drop_last());
        assert((a + b).last() == b.last());
        lemma_seg_filter_concat(a, b.drop_last());
        if b.last().len() > 0 {
            assert(seg_filter(a) + seg_filter(b.drop_last()).push(b.last()) =~= (seg_filter(a) + seg_filter(b.drop_last())).push(b.last()));
        }
    }
}

pub proof fn lemma_seg_filter_keeps_nonempty(s: Seq<Seq<u8>>)
    requires
        forall|i: int| 0 <= i < s.len() ==> (#[trigger] s[i]).len() > 0,
    ensures
        seg_filter(s) == s,
    decreases s.len(),
{
    if s.len() > 0 {
        lemma_seg_filter_keeps_nonempty(s.drop_last());
        assert(s.drop_last().push(s.last()) =~= s);
    }
}

pub proof fn lemma_seg_filter_nonempty(s: Seq<Seq<u8>>)
    ensures
        forall|i: int| 0 <= i < seg_filter(s).len() ==> (#[trigger] seg_filter(s)[i]).len() > 0,
    decreases s.len(),
{
    if s.len() > 0 {
        lemma_seg_filter_nonempty(s.drop_last());
        let f = seg_filter(s.drop_last());
        if s.last().len() > 0 {
            assert forall|i: int| 0 <= i < f.push(s.last()).len() implies (#[trigger] f.push(s.last())[i]).len() > 0 by {
                if i < f.len() {
                    assert(f.push(s.last())[i] == f[i]);
                }
            }
        }
    }
}

/// Splitting joined segments without `/` gives them back.
pub proof fn lemma_split_join(encs: Seq<Seq<u8>>)
    requires
        encs.len() > 0,
        forall|i: int, j: int| 0 <= i < encs.len() && 0 <= j < encs[i].len() ==> #[trigger] encs[i][j] != 0x2fu8,
    ensures
        split_parts(join_segs(encs), 0x2fu8, 0x2fu8) == encs,
    decreases encs.len(),
{
    if encs.len() == 1 {
        let x = encs[0];
        assert forall|j: int| 0 <= j < x.len() implies x[j] != 0x2fu8 by {
            assert(encs[0][j] != 0x2fu8);
        }
        lemma_split_whole(x, 0x2fu8, 0);
        assert(x.subrange(0, x.len() as int) =~= x);
        assert(seq![x] =~= encs);
    } else {
        let dl = encs.drop_last();
        let x = encs.last();
        assert forall|i: int, j: int| 0 <= i < dl.len() && 0 <= j < dl[i].len() implies #[trigger] dl[i][j] != 0x2fu8 by {
            assert(dl[i] == encs[i]);
        }
        lemma_split_join(dl);
        lemma_split_around(join_segs(dl), 0x2fu8, x, 0);
        assert forall|j: int| 0 <= j < x.len() implies x[j] != 0x2fu8 by {
            assert(encs[encs.len() - 1][j] != 0x2fu8);
        }
        lemma_split_whole(x, 0x2fu8, 0);
        assert(x.subrange(0, x.len() as int) =~= x);
        assert(dl + seq![x] =~= encs);
    }
}

/// The segments of `/` followed by segments joined with `/` are those
/// segments, when none is empty or holds a `/`.
pub proof fn lemma_path_of_slash(encs: Seq<Seq<u8>>)
    requires
        forall|i: int| 0 <= i < encs.len() ==> (#[trigger] encs[i]).len() > 0,
        forall|i: int, j: int| 0 <= i < encs.len() && 0 <= j < encs[i].len() ==> #[trigger] encs[i][j] != 0x2fu8,
    ensures
        path_segments(slash_path(encs)) == encs,
{
    let empty = Seq::<u8>::empty();
    let j = join_segs(encs);
    assert(slash_path(encs) =~= empty + seq![0x2fu8] + j);
    lemma_split_around(empty, 0x2fu8, j, 0);
    assert(empty.subrange(0, 0) =~= empty);
    assert(parts_from(empty, 0x2fu8, 0x2fu8, 0) =~= seq![empty]);
    assert(seg_filter(seq![empty]) =~= Seq::<Seq<u8>>::empty()) by {
        assert(seq![empty].drop_last() =~= Seq::<Seq<u8>>::empty());
        assert(seq![empty].last().len() == 0);
        assert(seg_filter(Seq::<Seq<u8>>::empty()) =~= Seq::<Seq<u8>>::empty());
    }
    if encs.len() == 0 {
        assert(j =~= empty);
        assert(parts_from(j, 0x2fu8, 0x2fu8, 0) =~= seq![empty]);
        lemma_seg_filter_concat(seq![empty], seq![empty]);
        assert(Seq::<Seq<u8>>::empty() + Seq::<Seq<u8>>::empty() =~= encs);
    } else {
        lemma_split_join(encs);
        lemma_seg_filter_concat(seq![empty], encs);
        lemma_seg_filter_keeps_nonempty(encs);
        assert(Seq::<Seq<u8>>::empty() + encs =~= encs);
    }
}

/// Joined ASCII segments are ASCII.
pub proof fn lemma_join_ascii(encs: Seq<Seq<u8>>)
    requires
        forall|i: int| 0 <= i < encs.len() ==> all_ascii(#[trigger] encs[i]),
    ensures
        all_ascii(join_segs(encs)),
    decreases encs.len(),
{
    if encs.len() == 1 {
        assert(all_ascii(encs[0]));
    } else if encs.len() > 1 {
        let dl = encs.drop_last();
        assert forall|i: int| 0 <= i < dl.len() implies all_ascii(#[trigger] dl[i]) by {
            assert(dl[i] == encs[i]);
        }
        lemma_join_ascii(dl);
        let a = join_segs(dl) + seq![0x2fu8];
        let b = a + encs.last();
        assert(all_ascii(encs[encs.len() - 1]));
        assert forall|i: int| 0 <= i < b.len() implies #[trigger] b[i] < 0x80 by {
            if i < join_segs(dl).len() {
                assert(b[i] == join_segs(dl)[i]);
            } else if i == join_segs(dl).len() {
                assert(b[i] == 0x2fu8);
            } else {
                assert(b[i] == encs.last()[i - a.len()]);
            }
        }
    }
}

/// Building from a buildable pattern gives the encoding of each segment.
pub proof fn lemma_build_segs(ps: Seq<Seq<u8>>, params: Seq<(Seq<char>, Seq<char>)>, i: int)
    requires
        buildable(ps, params),
        0 <= i <= ps.len(),
    ensures
        build_segs(ps, i, params) == Some(encodings(ps, params).subrange(i, ps.len() as int)),
    decreases ps.len() - i,
{
    let es = encodings(ps, params);
    if i == ps.len() {
        assert(es.subrange(i, ps.len() as int) =~= Seq::<Seq<u8>>::empty());
    } else {
        lemma_build_segs(ps, params, i + 1);
        let seg = ps[i];
        assert(plain_segment(seg) || filled_param(seg, params));
        assert(es.subrange(i, ps.len() as int) =~= seq![es[i]] + es.subrange(i + 1, ps.len() as int));
        if required_name(seg) is Some {
            assert(seg[0] == 0x3au8);
        }
    }
}

/// Matching the built segments collects, on top of `acc`, the parameter of
/// each `:name` segment from `ps[i..]`.
pub proof fn lemma_match_built(ps: Seq<Seq<u8>>, params: Seq<(Seq<char>, Seq<char>)>, i: int, acc: Seq<(Seq<char>, Seq<char>)>)
    requires
        buildable(ps, params),
        0 <= i <= ps.len(),
        keys_sorted(acc),
    ensures
        match_segs(ps, encodings(ps, params), i, i, acc) is Some,
        forall|k: Seq<char>| #[trigger] assoc_get(match_segs(ps, encodings(ps, params), i, i, acc).unwrap(), k)
            == (if names_from(ps, i, k) { assoc_get(params, k) } else { assoc_get(acc, k) }),
    decreases ps.len() - i,
{
    let es = encodings(ps, params);
    if i == ps.len() {
        assert forall|k: Seq<char>| !names_from(ps, i, k) by {}
    } else {
        let seg = ps[i];
        assert(plain_segment(seg) || filled_param(seg, params));
        if required_name(seg) is Some {
            assert(seg[0] == 0x3au8);
            let name = param_name(seg);
            let v = assoc_get(params, name).unwrap();
            lemma_segment_text_round_trip(v);
            assert(seg_text(es[i]) == v);
            let acc2 = assoc_put(acc, name, v);
            lemma_assoc_put_sorted(acc, name, v);
            lemma_match_built(ps, params, i + 1, acc2);
            let q = match_segs(ps, es, i + 1, i + 1, acc2).unwrap();
            assert(match_segs(ps, es, i, i, acc) == match_segs(ps, es, i + 1, i + 1, acc2));
            assert forall|k: Seq<char>| #[trigger] assoc_get(q, k)
                == (if names_from(ps, i, k) { assoc_get(params, k) } else { assoc_get(acc, k) }) by {
                if names_from(ps, i + 1, k) {
                    let j = choose|j: int| i + 1 <= j < ps.len() && #[trigger] required_name(ps[j]) is Some && param_name(ps[j]) == k;
                    assert(names_from(ps, i, k));
                } else if k == name {
                    law_get_after_set(acc, name, v);
                    assert(names_from(ps, i, k));
                } else {
                    law_set_keeps_other_keys(acc, name, v, k);
                    if names_from(ps, i, k) {
                        let j = choose|j: int| i <= j < ps.len() && #[trigger] required_name(ps[j]) is Some && param_name(ps[j]) == k;
                        assert(j != i);
                        assert(names_from(ps, i + 1, k));
                    }
                }
            }
        } else {
            lemma_segment_text_round_trip(seg_text(seg));
            assert(seg_text(es[i]) == seg_text(seg));
            lemma_match_built(ps, params, i + 1, acc);
            assert(match_segs(ps, es, i, i, acc) == match_segs(ps, es, i + 1, i + 1, acc));
            assert forall|k: Seq<char>| names_from(ps, i, k) == names_from(ps, i + 1, k) by {
                if names_from(ps, i, k) {
                    let j = choose|j: int| i <= j < ps.len() && #[trigger] required_name(ps[j]) is Some && param_name(ps[j]) == k;
                    assert(j != i);
                }
            }
        }
    }
}

/// Bytes a built route path is made of: unreserved bytes, `%` and `/`.
pub open spec fn path_byte(c: u8) -> bool {
    is_unreserved(c) || c == 0x25u8 || c == 0x2fu8
}

/// A path-segment encoding holds only unreserved bytes and `%`.
pub proof fn lemma_segment_encoding_bytes(b: Seq<u8>)
    ensures
        forall|i: int| 0 <= i < percent_encode(b, false, false).len() ==>
            is_unreserved(#[trigger] percent_encode(b, false, false)[i]) || percent_encode(b, false, false)[i] == 0x25u8,
    decreases b.len(),
{
    if b.len() > 0 {
        lemma_segment_encoding_bytes(b.drop_last());
        let x = b.last();
        let e = encode_byte(x, false, false);
        let r = percent_encode(b.drop_last(), false, false);
        assert forall|i: int| 0 <= i < e.len() implies is_unreserved(e[i]) || e[i] == 0x25u8 by {
            assert(x / 16 < 16);
            assert(x % 16 < 16);
        }
        assert forall|i: int| 0 <= i < (r + e).len() implies is_unreserved(#[trigger] (r + e)[i]) || (r + e)[i] == 0x25u8 by {
            if i < r.len() {
                assert((r + e)[i] == r[i]);
            } else {
                assert((r + e)[i] == e[i - r.len()]);
            }
        }
    }
}

/// Joined segments of path bytes are path bytes, and end as the last
/// segment ends.
pub proof fn lemma_join_bytes(encs: Seq<Seq<u8>>)
    requires
        encs.len() > 0,
        forall|i: int| 0 <= i < encs.len() ==> (#[trigger] encs[i]).len() > 0,
        forall|i: int, j: int| 0 <= i < encs.len() && 0 <= j < encs[i].len() ==> path_byte(#[trigger] encs[i][j]),
    ensures
        join_segs(encs).len() > 0,
        forall|i: int| 0 <= i < join_segs(encs).len() ==> path_byte(#[trigger] join_segs(encs)[i]),
        join_segs(encs).last() == encs.last().last(),
        join_segs(encs)[0] == encs[0][0],
    decreases encs.len(),
{
    if encs.len() == 1 {
        assert forall|i: int| 0 <= i < join_segs(encs).len() implies path_byte(#[trigger] join_segs(encs)[i]) by {
            assert(path_byte(encs[0][i]));
        }
    } else {
        let dl = encs.drop_last();
        assert forall|i: int| 0 <= i < dl.len() implies (#[trigger] dl[i]).len() > 0 by {
            assert(dl[i] == encs[i]);
        }
        assert forall|i: int, j: int| 0 <= i < dl.len() && 0 <= j < dl[i].len() implies path_byte(#[trigger] dl[i][j]) by {
            assert(dl[i] == encs[i]);
            assert(path_byte(encs[i][j]));
        }
        lemma_join_bytes(dl);
        let x = encs.last();
        let a = join_segs(dl) + seq![0x2fu8];
        let b = a + x;
        assert(b == join_segs(encs));
        assert(x.len() > 0) by { assert(encs[encs.len() - 1].len() > 0); }
        assert forall|i: int| 0 <= i < b.len() implies path_byte(#[trigger] b[i]) by {
            if i < join_segs(dl).len() {
                assert(b[i] == join_segs(dl)[i]);
            } else if i == join_segs(dl).len() {
                assert(b[i] == 0x2fu8);
            } else {
                assert(b[i] == x[i - a.len()]);
                assert(path_byte(encs[encs.len() - 1][i - a.len()]));
            }
        }
        assert(b[0] == join_segs(dl)[0]);
        assert(dl[0] == encs[0]);
    }
}

/// `find_from` reaches the end when `x` does not occur.
pub proof fn lemma_find_absent(b: Seq<u8>, x: u8, i: int)
    requires
        0 <= i <= b.len(),
        forall|j: int| i <= j < b.len() ==> b[j] != x,
    ensures
        find_from(b, x, i) == b.len(),
    decreases b.len() - i,
{
    if i < b.len() {
        lemma_find_absent(b, x, i + 1);
    }
}

/// A route path made of path bytes, starting with `/`, and not ending in
/// `/` unless it is `/`, is its own trimmed, normalised form, and parsing it
/// as a route gives it back as the path.
pub proof fn lemma_plain_route_path(b: Seq<u8>)
    requires
        b.len() > 0,
        b[0] == 0x2fu8,
        b.len() > 1 ==> b[1] != 0x2fu8 && b.last() != 0x2fu8,
        forall|i: int| 0 <= i < b.len() ==> path_byte(#[trigger] b[i]),
    ensures
        trim_ws(b) == b,
        normalize_path(b) == b,
        route_parts(b, false).0 == b,
{
    let n = b.len() as int;
    assert(path_byte(b[n - 1]));
    if n >= 2 {
        assert(path_byte(b[n - 2]));
    }
    if n >= 3 {
        assert(path_byte(b[n - 3]));
    }
    assert(b.subrange(0, n) =~= b);
    assert(trim_ws(b) == b);
    if n > 1 {
        assert(strip_back(b, 0x2fu8, 0, n) == n);
    }
    assert(normalize_path(b) == b);
    lemma_find_absent(b, 0x23u8, 0);
    lemma_find_absent(b, 0x3au8, 0);
    lemma_find_absent(b, 0x3fu8, 0);
    assert(strip_url_prefix(b) == b);
}

/// Building a route path from a pattern path whose segments are static or
/// filled `:name` parameters, and matching the built path against the same
/// pattern, gives back each parameter the pattern names, and nothing else.
pub proof fn law_match_undoes_build_path(pattern_path: Seq<u8>, params: Seq<(Seq<char>, Seq<char>)>)
    requires
        buildable(path_segments(pattern_path), params),
    ensures
        built_path(pattern_path, params) is Some,
        str_bytes(text_of(built_path(pattern_path, params).unwrap())) == built_path(pattern_path, params).unwrap(),
        route_parts(built_path(pattern_path, params).unwrap(), false).0 == built_path(pattern_path, params).unwrap(),
        normalize_path(built_path(pattern_path, params).unwrap()) == built_path(pattern_path, params).unwrap(),
        match_path(pattern_path, str_bytes(text_of(built_path(pattern_path, params).unwrap()))) is Some,
        forall|k: Seq<char>| #[trigger] assoc_get(match_path(pattern_path, str_bytes(text_of(built_path(pattern_path, params).unwrap()))).unwrap(), k)
            == (if names_from(path_segments(pattern_path), 0, k) { assoc_get(params, k) } else { None::<Seq<char>> }),
{
    let ps = path_segments(pattern_path);
    let es = encodings(ps, params);
    lemma_build_segs(ps, params, 0);
    assert(es.subrange(0, ps.len() as int) =~= es);
    let b = slash_path(es);
    assert(built_path(pattern_path, params) == Some(b));
    lemma_seg_filter_nonempty(split_parts(pattern_path, 0x2fu8, 0x2fu8));
    assert forall|i: int| 0 <= i < es.len() implies (#[trigger] es[i]).len() > 0 && all_ascii(es[i]) by {
        let seg = ps[i];
        assert(plain_segment(seg) || filled_param(seg, params));
        if required_name(seg) is Some {
            assert(seg[0] == 0x3au8);
            let v = assoc_get(params, param_name(seg)).unwrap();
            lemma_str_bytes_nonempty(v);
            lemma_percent_encode_len(str_bytes(v), false, false);
            lemma_percent_encode_ascii(str_bytes(v), false, false);
        } else {
            lemma_str_bytes_nonempty(seg_text(seg));
            lemma_percent_encode_len(str_bytes(seg_text(seg)), false, false);
            lemma_percent_encode_ascii(str_bytes(seg_text(seg)), false, false);
        }
    }
    assert forall|i: int, j: int| 0 <= i < es.len() && 0 <= j < es[i].len() implies #[trigger] es[i][j] != 0x2fu8 by {
        let seg = ps[i];
        if required_name(seg) is Some {
            lemma_segment_encoding_has_no_slash(str_bytes(assoc_get(params, param_name(seg)).unwrap()));
        } else {
            lemma_segment_encoding_has_no_slash(str_bytes(seg_text(seg)));
        }
    }
    lemma_join_ascii(es);
    assert(all_ascii(b)) by {
        let j = join_segs(es);
        assert forall|i: int| 0 <= i < b.len() implies #[trigger] b[i] < 0x80 by {
            if i > 0 {
                assert(b[i] == j[i - 1]);
            }
        }
    }
    lemma_ascii_text(b);
    assert(str_bytes(text_of(b)) == b);
    lemma_path_of_slash(es);
    lemma_match_built(ps, params, 0, Seq::empty());
    assert forall|i: int, j: int| 0 <= i < es.len() && 0 <= j < es[i].len() implies path_byte(#[trigger] es[i][j]) by {
        let seg = ps[i];
        if required_name(seg) is Some {
            lemma_segment_encoding_bytes(str_bytes(assoc_get(params, param_name(seg)).unwrap()));
        } else {
            lemma_segment_encoding_bytes(str_bytes(seg_text(seg)));
        }
    }
    if es.len() > 0 {
        lemma_join_bytes(es);
        let j = join_segs(es);
        assert(b == seq![0x2fu8] + j);
        assert forall|i: int| 0 <= i < b.len() implies path_byte(#[trigger] b[i]) by {
            if i > 0 {
                assert(b[i] == j[i - 1]);
            }
        }
        assert(b[1] == es[0][0]);
        assert(es[0][0] != 0x2fu8);
        assert(b.last() == es.last().last());
        assert(es.last() == es[es.len() - 1]);
        assert(es[es.len() - 1][es[es.len() - 1].len() - 1] != 0x2fu8);
    } else {
        assert(join_segs(es) =~= Seq::<u8>::empty());
        assert(b =~= seq![0x2fu8]);
    }
    lemma_plain_route_path(b);
}

/// Building a route from a pattern without query or fragment, whose path
/// segments are static or filled `:name` parameters, and matching the built
/// route against the same pattern, gives back each parameter the pattern
/// names, and nothing else.
pub proof fn law_match_route_undoes_build_route(pattern: Seq<char>, params: Seq<(Seq<char>, Seq<char>)>)
    requires
        route_parts(str_bytes(pattern), true).2 is None,
        query_all_of(route_parts(str_bytes(pattern), true).1).len() == 0,
        buildable(path_segments(str_bytes(text_of(route_parts(str_bytes(pattern), true).0))), params_fold(params)),
    ensures
        built_route(pattern, params, Seq::empty()) is Some,
        match_path(
            str_bytes(text_of(route_parts(str_bytes(pattern), true).0)),
            str_bytes(text_of(route_parts(str_bytes(built_route(pattern, params, Seq::empty()).unwrap()), false).0)),
        ) is Some,
        forall|k: Seq<char>| #[trigger] assoc_get(match_path(
            str_bytes(text_of(route_parts(str_bytes(pattern), true).0)),
            str_bytes(text_of(route_parts(str_bytes(built_route(pattern, params, Seq::empty()).unwrap()), false).0)),
        ).unwrap(), k) == (if names_from(path_segments(str_bytes(text_of(route_parts(str_bytes(pattern), true).0))), 0, k) {
            assoc_get(params_fold(params), k)
        } else {
            None::<Seq<char>>
        }),
{
    let p = route_parts(str_bytes(pattern), true);
    let pp = str_bytes(text_of(p.0));
    let fp = params_fold(params);
    law_match_undoes_build_path(pp, fp);
    let b = built_path(pp, fp).unwrap();
    assert(apply_query(query_all_of(p.1), Seq::empty()).0 == query_all_of(p.1));
    assert(path_and_query_bytes(text_of(b), query_all_of(p.1)) == normalize_path(str_bytes(text_of(b))));
    assert(route_string_bytes(text_of(b), query_all_of(p.1), None) == b);
    let r = built_route(pattern, params, Seq::empty()).unwrap();
    assert(r == text_of(b));
    assert(str_bytes(r) == b);
}

/// Where `strip_back` stops lies between its bounds.
pub proof fn lemma_strip_back_bounds(b: Seq<u8>, x: u8, lo: int, e: int)
    requires
        lo <= e,
    ensures
        lo <= strip_back(b, x, lo, e) <= e,
    decreases e - lo,
{
    if lo < e && b[e - 1] == x {
        lemma_strip_back_bounds(b, x, lo, e - 1);
    }
}

/// A normalised path is non-empty, starts with `/` and has no surrounding
/// whitespace.
pub proof fn lemma_normal_path(b: Seq<u8>)
    requires
        normalize_path(b) == b,
    ensures
        b.len() > 0,
        b[0] == 0x2fu8,
        trim_ws(b) == b,
{
    let t = trim_ws(b);
    lemma_trim_bounds(b);
    if t.len() == 0 {
        assert(b =~= seq![0x2fu8]);
    } else {
        let w = if t[0] == 0x2fu8 { t } else { seq![0x2fu8] + t };
        if w.len() > 1 {
            lemma_strip_back_bounds(w, 0x2fu8, 0, w.len() as int);
        }
        if b.len() == 0 {
            assert(normalize_path(b) =~= seq![0x2fu8]);
        }
        assert(b[0] == w[0]);
        assert(b[0] == 0x2fu8);
        assert(t =~= b.subrange(0, t.len() as int));
        assert(t[0] == 0x2fu8);
        assert(b.len() <= t.len());
        assert(t =~= b);
    }
}

/// A fragment encoding holds only ASCII bytes that are neither whitespace
/// nor `#`.
pub proof fn lemma_fragment_encoding_bytes(b: Seq<u8>)
    ensures
        forall|i: int| 0 <= i < percent_encode(b, false, true).len() ==> {
            let c = #[trigger] percent_encode(b, false, true)[i];
            c < 0x80 && c != 0x20 && !(0x09 <= c <= 0x0d) && c != 0x23
        },
    decreases b.len(),
{
    if b.len() > 0 {
        lemma_fragment_encoding_bytes(b.drop_last());
        let x = b.last();
        let e = encode_byte(x, false, true);
        let r = percent_encode(b.drop_last(), false, true);
        assert forall|i: int| 0 <= i < e.len() implies e[i] < 0x80 && e[i] != 0x20 && !(0x09 <= e[i] <= 0x0d) && e[i] != 0x23 by {
            assert(x / 16 < 16);
            assert(x % 16 < 16);
        }
        assert forall|i: int| 0 <= i < (r + e).len() implies {
            let c = #[trigger] (r + e)[i];
            c < 0x80 && c != 0x20 && !(0x09 <= c <= 0x0d) && c != 0x23
        } by {
            if i < r.len() {
                assert((r + e)[i] == r[i]);
            } else {
                assert((r + e)[i] == e[i - r.len()]);
            }
        }
    }
}

/// The encoding of a fragment that does not start with `/` or `!/` is no
/// hash route.
pub proof fn lemma_fragment_not_hash_route(fb: Seq<u8>)
    requires
        fb.len() > 0,
        !starts_with_byte(fb, 0x2fu8),
        !(fb.len() >= 2 && fb[0] == 0x21u8 && fb[1] == 0x2fu8),
    ensures
        hash_route_part(percent_encode(fb, false, true)) is None,
        percent_encode(fb, false, true).len() > 0,
{
    let c = fb[0];
    let rest = fb.drop_first();
    assert(seq![c] + rest =~= fb);
    lemma_encode_concat(seq![c], rest, false, true);
    assert(percent_encode(seq![c], false, true) =~= encode_byte(c, false, true)) by {
        assert(seq![c].drop_last() =~= Seq::<u8>::empty());
        assert(seq![c].last() == c);
        assert(percent_encode(Seq::<u8>::empty(), false, true) =~= Seq::<u8>::empty());
        assert(Seq::<u8>::empty() + encode_byte(c, false, true) =~= encode_byte(c, false, true));
    }
    let e = percent_encode(fb, false, true);
    let ec = encode_byte(c, false, true);
    assert(e == ec + percent_encode(rest, false, true));
    assert(e[0] == ec[0]);
    if c == 0x21u8 {
        assert(ec =~= seq![0x21u8]);
        if rest.len() > 0 {
            let d = rest[0];
            let rr = rest.drop_first();
            assert(seq![d] + rr =~= rest);
            lemma_encode_concat(seq![d], rr, false, true);
            assert(percent_encode(seq![d], false, true) =~= encode_byte(d, false, true)) by {
                assert(seq![d].drop_last() =~= Seq::<u8>::empty());
                assert(seq![d].last() == d);
                assert(percent_encode(Seq::<u8>::empty(), false, true) =~= Seq::<u8>::empty());
                assert(Seq::<u8>::empty() + encode_byte(d, false, true) =~= encode_byte(d, false, true));
            }
            assert(fb[1] == d);
            assert(e.drop_first()[0] == encode_byte(d, false, true)[0]);
        } else {
            assert(percent_encode(rest, false, true) =~= Seq::<u8>::empty());
            assert(e.drop_first() =~= Seq::<u8>::empty());
        }
    }
}

/// Parsing a printed location without query gives it back: a normalised path without `?`, `#` or a leading
/// `//`, and no fragment or a non-empty one that does not start with `/` or
/// `!/`.
#[verifier::spinoff_prover]
#[verifier::rlimit(80)]
pub proof fn lemma_parse_undoes_print_without_query(path: Seq<char>, fragment: Option<Seq<char>>)
    requires
        normalize_path(str_bytes(path)) == str_bytes(path),
        forall|i: int| 0 <= i < str_bytes(path).len() ==> #[trigger] str_bytes(path)[i] != 0x3fu8 && str_bytes(path)[i] != 0x23u8,
        !starts_with_two(str_bytes(path), 0x2fu8),
        fragment matches Some(f) ==> f.len() > 0 && !starts_with_byte(str_bytes(f), 0x2fu8)
            && !(str_bytes(f).len() >= 2 && str_bytes(f)[0] == 0x21u8 && str_bytes(f)[1] == 0x2fu8),
    ensures
        text_of(route_parts(str_bytes(text_of(route_string_bytes(path, Seq::empty(), fragment))), false).0) == path,
        query_all_of(route_parts(str_bytes(text_of(route_string_bytes(path, Seq::empty(), fragment))), false).1) == Seq::<(Seq<char>, Seq<Seq<char>>)>::empty(),
        frag_view(route_parts(str_bytes(text_of(route_string_bytes(path, Seq::empty(), fragment))), false).2) == fragment,
{
    let pb = str_bytes(path);
    lemma_normal_path(pb);
    encode_utf8_valid_utf8(path);
    encode_utf8_decode_utf8(path);
    let rsb = route_string_bytes(path, Seq::empty(), fragment);
    assert(path_and_query_bytes(path, Seq::empty()) == pb);
    lemma_find_absent(pb, 0x23u8, 0);
    lemma_find_absent(pb, 0x3fu8, 0);
    assert(pb.subrange(0, pb.len() as int) =~= pb);
    // `strip_url_prefix` keeps a path that starts with `/`.
    assert(strip_url_prefix(pb) == pb) by {
        let i = crate::split::find_from(pb, 0x3au8, 0);
        crate::split::lemma_find_from_bounds(pb, 0x3au8, 0);
        if i < pb.len() {
            assert(i > 0);
            assert(pb.subrange(0, i)[0] == 0x2fu8);
        }
    }
    let empty = Seq::<u8>::empty();
    assert(query_all_of(empty) =~= Seq::<(Seq<char>, Seq<Seq<char>>)>::empty()) by {
        assert(crate::location::strip_question(empty) =~= empty);
        assert(parts_from(empty, 0x26u8, 0x3bu8, 0) =~= seq![empty]) by {
            assert(empty.subrange(0, 0) =~= empty);
        }
        assert(seq![empty].drop_last() =~= Seq::<Seq<u8>>::empty());
        assert(split_parts(empty, 0x26u8, 0x3bu8) =~= seq![empty]);
        assert(seq![empty].last() == empty);
        assert(crate::location::query_fold(Seq::<Seq<u8>>::empty()) =~= Seq::<(Seq<char>, Seq<Seq<char>>)>::empty());
        assert(crate::location::query_fold(seq![empty]) =~= Seq::<(Seq<char>, Seq<Seq<char>>)>::empty());
    }
    match fragment {
        None => {
            assert(rsb == pb);
            assert(after_byte(pb, 0x23u8) is None);
            assert(before_byte(pb, 0x23u8) == pb);
        },
        Some(f) => {
            let fb = str_bytes(f);
            encode_utf8_valid_utf8(f);
            encode_utf8_decode_utf8(f);
            let e = percent_encode(fb, false, true);
            lemma_str_bytes_nonempty(f);
            lemma_fragment_not_hash_route(fb);
            lemma_fragment_encoding_bytes(fb);
            assert(rsb == pb + seq![0x23u8] + e);
            // Validity of the route string.
            assert(all_ascii(seq![0x23u8] + e)) by {
                let t = seq![0x23u8] + e;
                assert forall|i: int| 0 <= i < t.len() implies #[trigger] t[i] < 0x80 by {
                    if i > 0 {
                        assert(t[i] == e[i - 1]);
                    }
                }
            }
            lemma_ascii_text(seq![0x23u8] + e);
            assert(pb + seq![0x23u8] + e =~= pb + (seq![0x23u8] + e));
            valid_utf8_concat(pb, seq![0x23u8] + e);
            decode_utf8_encode_utf8(rsb);
            assert(str_bytes(text_of(rsb)) == rsb);
            // Trimming keeps the route string.
            let n = rsb.len() as int;
            assert(rsb[0] == 0x2fu8);
            assert(rsb[n - 1] == e[e.len() - 1]);
            assert(rsb.subrange(0, n) =~= rsb);
            assert(trim_ws(rsb) == rsb);
            // The fragment is split off at the first `#`.
            lemma_find_absent(pb, 0x23u8, 0);
            assert(crate::split::find_from(rsb, 0x23u8, 0) == pb.len()) by {
                assert forall|j: int| 0 <= j < pb.len() implies rsb[j] != 0x23u8 by {
                    assert(rsb[j] == pb[j]);
                }
                lemma_find_prefix(pb, seq![0x23u8] + e, 0x23u8, 0);
            }
            assert(rsb.subrange(pb.len() + 1int, n) =~= e);
            assert(before_byte(rsb, 0x23u8) =~= pb);
            law_decode_undoes_encode(fb, false, true, false);
            assert(lossy_decode(e, false) == f);
        },
    }
}

/// `find_from` over `a + t` stops inside `a` as it does over `a`, or at
/// `a.len()` when `t` starts with `x` and `a` holds no `x`.
pub proof fn lemma_find_prefix(a: Seq<u8>, t: Seq<u8>, x: u8, i: int)
    requires
        0 <= i <= a.len(),
        t.len() > 0,
        t[0] == x,
        forall|j: int| i <= j < a.len() ==> a[j] != x,
    ensures
        crate::split::find_from(a + t, x, i) == a.len(),
    decreases a.len() - i,
{
    if i < a.len() {
        assert((a + t)[i] == a[i]);
        lemma_find_prefix(a, t, x, i + 1);
    } else {
        assert((a + t)[i] == t[0]);
    }
}

/// Splitting `a`, the separator `s1` and `c` at `s1` or `s2` splits `a`
/// and `c` apart.
pub proof fn lemma_split_around_either(a: Seq<u8>, s1: u8, s2: u8, c: Seq<u8>, from: int)
    requires
        0 <= from <= a.len(),
    ensures
        parts_from(a + seq![s1] + c, s1, s2, from) == parts_from(a, s1, s2, from) + parts_from(c, s1, s2, 0),
    decreases a.len() - from,
{
    let b = a + seq![s1] + c;
    let t = seq![s1] + c;
    assert(b =~= a + t);
    crate::split::lemma_next_sep_prefix(a, t, s1, s2, from);
    crate::split::lemma_next_sep_bounds(a, s1, s2, from);
    let e = crate::split::next_sep(a, s1, s2, from);
    if e < a.len() {
        assert(b.subrange(from, e) =~= a.subrange(from, e));
        lemma_split_around_either(a, s1, s2, c, e + 1);
        assert(seq![a.subrange(from, e)] + (parts_from(a, s1, s2, e + 1) + parts_from(c, s1, s2, 0))
            =~= (seq![a.subrange(from, e)] + parts_from(a, s1, s2, e + 1)) + parts_from(c, s1, s2, 0));
    } else {
        assert(b.subrange(from, e) =~= a.subrange(from, a.len() as int));
        assert(b =~= (a + seq![s1]) + c);
        crate::split::lemma_parts_from_shift(a + seq![s1], c, s1, s2, 0);
    }
}

/// Without either separator, splitting gives the whole sequence back.
pub proof fn lemma_split_whole_either(x: Seq<u8>, s1: u8, s2: u8, from: int)
    requires
        0 <= from <= x.len(),
        forall|i: int| 0 <= i < x.len() ==> x[i] != s1 && x[i] != s2,
    ensures
        crate::split::next_sep(x, s1, s2, from) == x.len(),
        parts_from(x, s1, s2, from) == seq![x.subrange(from, x.len() as int)],
    decreases x.len() - from,
{
    if from < x.len() {
        lemma_split_whole_either(x, s1, s2, from + 1);
    }
}

/// Splitting pieces joined with `s1` at `s1` or `s2` gives them back, when
/// no piece holds either separator.
pub proof fn lemma_split_join_bytes(ps: Seq<Seq<u8>>, s1: u8, s2: u8)
    requires
        ps.len() > 0,
        forall|i: int, j: int| 0 <= i < ps.len() && 0 <= j < ps[i].len() ==> #[trigger] ps[i][j] != s1 && ps[i][j] != s2,
    ensures
        split_parts(join_bytes(ps, s1), s1, s2) == ps,
    decreases ps.len(),
{
    let x = ps.last();
    assert forall|j: int| 0 <= j < x.len() implies x[j] != s1 && x[j] != s2 by {
        assert(ps[ps.len() - 1][j] != s1);
    }
    lemma_split_whole_either(x, s1, s2, 0);
    assert(x.subrange(0, x.len() as int) =~= x);
    if ps.len() == 1 {
        assert(seq![x] =~= ps);
    } else {
        let dl = ps.drop_last();
        assert forall|i: int, j: int| 0 <= i < dl.len() && 0 <= j < dl[i].len() implies #[trigger] dl[i][j] != s1 && dl[i][j] != s2 by {
            assert(dl[i] == ps[i]);
            assert(ps[i][j] != s1);
        }
        lemma_split_join_bytes(dl, s1, s2);
        lemma_split_around_either(join_bytes(dl, s1), s1, s2, x, 0);
        assert(dl + seq![x] =~= ps);
    }
}

/// Folding query pieces onto `acc`.
pub open spec fn query_fold_from(acc: QueryView, parts: Seq<Seq<u8>>) -> QueryView
    decreases parts.len(),
{
    if parts.len() == 0 {
        acc
    } else {
        add_query_pair(query_fold_from(acc, parts.drop_last()), parts.last())
    }
}

pub proof fn lemma_query_fold_from_empty(parts: Seq<Seq<u8>>)
    ensures
        query_fold(parts) == query_fold_from(Seq::empty(), parts),
    decreases parts.len(),
{
    if parts.len() > 0 {
        lemma_query_fold_from_empty(parts.drop_last());
    }
}

pub proof fn lemma_query_fold_concat(acc: QueryView, a: Seq<Seq<u8>>, b: Seq<Seq<u8>>)
    ensures
        query_fold_from(acc, a + b) == query_fold_from(query_fold_from(acc, a), b),
    decreases b.len(),
{
    if b.len() == 0 {
        assert(a + b =~= a);
    } else {
        assert((a + b).drop_last() =~= a + b.drop_last());
        assert((a + b).last() == b.last());
        lemma_query_fold_concat(acc, a, b.drop_last());
    }
}

/// A query encoding holds only unreserved bytes, `+` and `%`.
pub proof fn lemma_query_encoding_bytes(b: Seq<u8>)
    ensures
        forall|i: int| 0 <= i < percent_encode(b, true, false).len() ==> {
            let c = #[trigger] percent_encode(b, true, false)[i];
            is_unreserved(c) || c == 0x2bu8 || c == 0x25u8
        },
    decreases b.len(),
{
    if b.len() > 0 {
        lemma_query_encoding_bytes(b.drop_last());
        let x = b.last();
        let e = encode_byte(x, true, false);
        let r = percent_encode(b.drop_last(), true, false);
        assert forall|i: int| 0 <= i < e.len() implies is_unreserved(e[i]) || e[i] == 0x2bu8 || e[i] == 0x25u8 by {
            assert(x / 16 < 16);
            assert(x % 16 < 16);
        }
        assert forall|i: int| 0 <= i < (r + e).len() implies {
            let c = #[trigger] (r + e)[i];
            is_unreserved(c) || c == 0x2bu8 || c == 0x25u8
        } by {
            if i < r.len() {
                assert((r + e)[i] == r[i]);
            } else {
                assert((r + e)[i] == e[i - r.len()]);
            }
        }
    }
}

/// A byte of an encoded query pair.
pub open spec fn pair_byte(c: u8) -> bool {
    is_unreserved(c) || c == 0x2bu8 || c == 0x25u8 || c == 0x3du8
}

/// An encoded pair is read back as its key and value.
pub proof fn lemma_add_pair(acc: QueryView, k: Seq<char>, v: Seq<char>)
    requires
        k.len() > 0,
    ensures
        add_query_pair(acc, pair_bytes(k, v)) == multi_push(acc, k, v),
        pair_bytes(k, v).len() > 0,
        forall|i: int| 0 <= i < pair_bytes(k, v).len() ==> pair_byte(#[trigger] pair_bytes(k, v)[i]),
{
    let ek = percent_encode(str_bytes(k), true, false);
    let ev = percent_encode(str_bytes(v), true, false);
    let p = pair_bytes(k, v);
    assert(p == ek + (seq![0x3du8] + ev));
    lemma_query_encoding_bytes(str_bytes(k));
    lemma_query_encoding_bytes(str_bytes(v));
    assert forall|j: int| 0 <= j < ek.len() implies ek[j] != 0x3du8 by {
        assert(is_unreserved(ek[j]) || ek[j] == 0x2bu8 || ek[j] == 0x25u8);
    }
    lemma_find_prefix(ek, seq![0x3du8] + ev, 0x3du8, 0);
    assert(before_byte(p, 0x3du8) =~= ek);
    assert(p.subrange(ek.len() + 1int, p.len() as int) =~= ev);
    assert(after_byte(p, 0x3du8) == Some(ev));
    law_decode_undoes_encode(str_bytes(k), true, false, true);
    law_decode_undoes_encode(str_bytes(v), true, false, true);
    encode_utf8_valid_utf8(k);
    encode_utf8_decode_utf8(k);
    encode_utf8_valid_utf8(v);
    encode_utf8_decode_utf8(v);
    assert(lossy_decode(ek, true) == k);
    assert(lossy_decode(ev, true) == v);
    assert forall|i: int| 0 <= i < p.len() implies pair_byte(#[trigger] p[i]) by {
        if i < ek.len() {
            assert(p[i] == ek[i]);
        } else if i == ek.len() {
            assert(p[i] == 0x3du8);
        } else {
            assert(p[i] == ev[i - ek.len() - 1]);
        }
    }
}

/// Pushing a value under a key above every key of `s` adds an entry at the
/// end.
pub proof fn lemma_multi_push_new(s: QueryView, k: Seq<char>, v: Seq<char>)
    requires
        forall|i: int| 0 <= i < s.len() ==> key_lt(#[trigger] s[i].0, k),
    ensures
        multi_push(s, k, v) == s.push((k, seq![v])),
    decreases s.len(),
{
    if s.len() > 0 {
        assert(key_lt(s[0].0, k));
        lemma_key_lt_irreflexive(k);
        lemma_bytes_lt_asymmetric(vstd::utf8::encode_utf8(s[0].0), vstd::utf8::encode_utf8(k));
        let r = s.drop_first();
        assert forall|i: int| 0 <= i < r.len() implies key_lt(#[trigger] r[i].0, k) by {
            assert(r[i] == s[i + 1]);
        }
        lemma_multi_push_new(r, k, v);
        assert(seq![s[0]] + r.push((k, seq![v])) =~= s.push((k, seq![v])));
    }
}

/// Pushing a value under the last key of `s.push((k, vs))` appends it.
pub proof fn lemma_multi_push_last(s: QueryView, k: Seq<char>, vs: Seq<Seq<char>>, v: Seq<char>)
    requires
        forall|i: int| 0 <= i < s.len() ==> key_lt(#[trigger] s[i].0, k),
    ensures
        multi_push(s.push((k, vs)), k, v) == s.push((k, vs.push(v))),
    decreases s.len(),
{
    let t = s.push((k, vs));
    if s.len() == 0 {
        assert(t[0] == (k, vs));
        assert(t.drop_first() =~= Seq::<(Seq<char>, Seq<Seq<char>>)>::empty());
        assert(seq![(k, vs.push(v))] + t.drop_first() =~= s.push((k, vs.push(v))));
    } else {
        assert(t[0] == s[0]);
        assert(key_lt(s[0].0, k));
        lemma_key_lt_irreflexive(k);
        lemma_bytes_lt_asymmetric(vstd::utf8::encode_utf8(s[0].0), vstd::utf8::encode_utf8(k));
        let r = s.drop_first();
        assert forall|i: int| 0 <= i < r.len() implies key_lt(#[trigger] r[i].0, k) by {
            assert(r[i] == s[i + 1]);
        }
        lemma_multi_push_last(r, k, vs, v);
        assert(t.drop_first() =~= r.push((k, vs)));
        assert(seq![s[0]] + r.push((k, vs.push(v))) =~= s.push((k, vs.push(v))));
    }
}

/// Folding the pairs of one key onto entries with smaller keys adds the
/// key's entry at the end.
pub proof fn lemma_fold_entry(s: QueryView, k: Seq<char>, vs: Seq<Seq<char>>)
    requires
        forall|i: int| 0 <= i < s.len() ==> key_lt(#[trigger] s[i].0, k),
        k.len() > 0,
        vs.len() > 0,
    ensures
        query_fold_from(s, entry_pairs(k, vs)) == s.push((k, vs)),
    decreases vs.len(),
{
    let ep = entry_pairs(k, vs);
    let v = vs.last();
    assert(ep.drop_last() =~= entry_pairs(k, vs.drop_last()));
    assert(ep.last() == pair_bytes(k, v));
    lemma_add_pair(query_fold_from(s, ep.drop_last()), k, v);
    if vs.len() == 1 {
        assert(entry_pairs(k, vs.drop_last()) =~= Seq::<Seq<u8>>::empty());
        lemma_multi_push_new(s, k, v);
        assert(seq![v] =~= vs);
    } else {
        lemma_fold_entry(s, k, vs.drop_last());
        lemma_multi_push_last(s, k, vs.drop_last(), v);
        assert(vs.drop_last().push(v) =~= vs);
    }
}

/// A query map with sorted, non-empty keys, each holding values, is what
/// its encoded pairs fold back to.
pub proof fn lemma_fold_query_pairs(qa: QueryView)
    requires
        keys_sorted(qa),
        forall|i: int| 0 <= i < qa.len() ==> (#[trigger] qa[i]).0.len() > 0 && qa[i].1.len() > 0,
    ensures
        query_fold_from(Seq::empty(), query_pairs(qa)) == qa,
    decreases qa.len(),
{
    if qa.len() > 0 {
        let dl = qa.drop_last();
        assert forall|i: int, j: int| 0 <= i < j < dl.len() implies key_lt(#[trigger] dl[i].0, #[trigger] dl[j].0) by {
            assert(dl[i] == qa[i] && dl[j] == qa[j]);
        }
        assert forall|i: int| 0 <= i < dl.len() implies (#[trigger] dl[i]).0.len() > 0 && dl[i].1.len() > 0 by {
            assert(dl[i] == qa[i]);
        }
        lemma_fold_query_pairs(dl);
        lemma_query_fold_concat(Seq::empty(), query_pairs(dl), entry_pairs(qa.last().0, qa.last().1));
        assert forall|i: int| 0 <= i < dl.len() implies key_lt(#[trigger] dl[i].0, qa.last().0) by {
            assert(dl[i] == qa[i]);
            assert(qa.last() == qa[qa.len() - 1]);
        }
        assert(qa[qa.len() - 1] == qa.last());
        lemma_fold_entry(dl, qa.last().0, qa.last().1);
        assert(dl.push(qa.last()) =~= qa);
    }
}

/// The encoded pairs of such a query map are non-empty pair bytes.
pub proof fn lemma_query_pairs_bytes(qa: QueryView)
    requires
        forall|i: int| 0 <= i < qa.len() ==> (#[trigger] qa[i]).0.len() > 0 && qa[i].1.len() > 0,
    ensures
        qa.len() > 0 ==> query_pairs(qa).len() > 0,
        forall|i: int| 0 <= i < query_pairs(qa).len() ==> (#[trigger] query_pairs(qa)[i]).len() > 0,
        forall|i: int, j: int| 0 <= i < query_pairs(qa).len() && 0 <= j < query_pairs(qa)[i].len()
            ==> pair_byte(#[trigger] query_pairs(qa)[i][j]),
    decreases qa.len(),
{
    if qa.len() > 0 {
        let dl = qa.drop_last();
        assert forall|i: int| 0 <= i < dl.len() implies (#[trigger] dl[i]).0.len() > 0 && dl[i].1.len() > 0 by {
            assert(dl[i] == qa[i]);
        }
        lemma_query_pairs_bytes(dl);
        let k = qa.last().0;
        let vs = qa.last().1;
        assert(qa[qa.len() - 1] == qa.last());
        let a = query_pairs(dl);
        let e = entry_pairs(k, vs);
        let all = query_pairs(qa);
        assert(all == a + e);
        assert forall|i: int| 0 <= i < all.len() implies (#[trigger] all[i]).len() > 0
            && forall|j: int| 0 <= j < all[i].len() ==> pair_byte(#[trigger] all[i][j]) by {
            if i < a.len() {
                assert(all[i] == a[i]);
            } else {
                assert(all[i] == pair_bytes(k, vs[i - a.len()]));
                lemma_add_pair(Seq::empty(), k, vs[i - a.len()]);
            }
        }
    }
}

/// Joined pair bytes are pair bytes or `&`, and end as the last piece ends.
pub proof fn lemma_join_pairs(ps: Seq<Seq<u8>>)
    requires
        ps.len() > 0,
        forall|i: int| 0 <= i < ps.len() ==> (#[trigger] ps[i]).len() > 0,
        forall|i: int, j: int| 0 <= i < ps.len() && 0 <= j < ps[i].len() ==> pair_byte(#[trigger] ps[i][j]),
    ensures
        join_bytes(ps, 0x26u8).len() > 0,
        forall|i: int| 0 <= i < join_bytes(ps, 0x26u8).len() ==> {
            let c = #[trigger] join_bytes(ps, 0x26u8)[i];
            pair_byte(c) || c == 0x26u8
        },
        pair_byte(join_bytes(ps, 0x26u8)[0]),
        pair_byte(join_bytes(ps, 0x26u8).last()),
    decreases ps.len(),
{
    if ps.len() == 1 {
        assert forall|i: int| 0 <= i < ps[0].len() implies pair_byte(#[trigger] ps[0][i]) by {}
    } else {
        let dl = ps.drop_last();
        assert forall|i: int| 0 <= i < dl.len() implies (#[trigger] dl[i]).len() > 0 by {
            assert(dl[i] == ps[i]);
        }
        assert forall|i: int, j: int| 0 <= i < dl.len() && 0 <= j < dl[i].len() implies pair_byte(#[trigger] dl[i][j]) by {
            assert(dl[i] == ps[i]);
            assert(pair_byte(ps[i][j]));
        }
        lemma_join_pairs(dl);
        let x = ps.last();
        let a = join_bytes(dl, 0x26u8) + seq![0x26u8];
        let b = a + x;
        assert(b == join_bytes(ps, 0x26u8));
        assert(x.len() > 0) by { assert(ps[ps.len() - 1].len() > 0); }
        assert forall|i: int| 0 <= i < b.len() implies {
            let c = #[trigger] b[i];
            pair_byte(c) || c == 0x26u8
        } by {
            if i < join_bytes(dl, 0x26u8).len() {
                assert(b[i] == join_bytes(dl, 0x26u8)[i]);
            } else if i == join_bytes(dl, 0x26u8).len() {
            } else {
                assert(b[i] == x[i - a.len()]);
                assert(pair_byte(ps[ps.len() - 1][i - a.len()]));
            }
        }
        assert(b[0] == join_bytes(dl, 0x26u8)[0]);
        assert(b.last() == x.last());
        assert(pair_byte(ps[ps.len() - 1][x.len() - 1]));
    }
}

/// `strip_url_prefix` keeps bytes that start with one `/`.
pub proof fn lemma_strip_keeps_path(b: Seq<u8>)
    requires
        b.len() > 0,
        b[0] == 0x2fu8,
        !starts_with_two(b, 0x2fu8),
    ensures
        strip_url_prefix(b) == b,
{
    let i = crate::split::find_from(b, 0x3au8, 0);
    crate::split::lemma_find_from_bounds(b, 0x3au8, 0);
    if i < b.len() {
        assert(i > 0);
        assert(b.subrange(0, i)[0] == 0x2fu8);
    }
}

/// Bytes that start with `/` and end in an ASCII byte that is no
/// whitespace are not trimmed.
pub proof fn lemma_trim_keeps(b: Seq<u8>)
    requires
        b.len() > 0,
        b[0] == 0x2fu8,
        b.last() < 0x80,
        b.last() != 0x20u8,
        !(0x09u8 <= b.last() <= 0x0du8),
    ensures
        trim_ws(b) == b,
{
    let n = b.len() as int;
    assert(b[n - 1] == b.last());
    assert(b.subrange(0, n) =~= b);
}

/// The bytes of a path followed by `?` and the encoded query of `qa`.
pub open spec fn path_query(path: Seq<char>, qa: QueryView) -> Seq<u8> {
    str_bytes(path) + seq![0x3fu8] + join_bytes(query_pairs(qa), 0x26u8)
}

/// What printing a path with a non-empty query gives, and how it reads.
#[verifier::spinoff_prover]
#[verifier::rlimit(80)]
pub proof fn lemma_path_query_bytes(path: Seq<char>, qa: QueryView)
    requires
        normalize_path(str_bytes(path)) == str_bytes(path),
        forall|i: int| 0 <= i < str_bytes(path).len() ==> #[trigger] str_bytes(path)[i] != 0x3fu8 && str_bytes(path)[i] != 0x23u8,
        !starts_with_two(str_bytes(path), 0x2fu8),
        keys_sorted(qa),
        forall|i: int| 0 <= i < qa.len() ==> (#[trigger] qa[i]).0.len() > 0 && qa[i].1.len() > 0,
        qa.len() > 0,
    ensures
        path_and_query_bytes(path, qa) == path_query(path, qa),
        valid_utf8(path_query(path, qa)),
        path_query(path, qa)[0] == 0x2fu8,
        path_query(path, qa).last() < 0x80,
        path_query(path, qa).last() != 0x20u8,
        !(0x09u8 <= path_query(path, qa).last() <= 0x0du8),
        forall|j: int| 0 <= j < path_query(path, qa).len() ==> #[trigger] path_query(path, qa)[j] != 0x23u8,
        strip_url_prefix(path_query(path, qa)) == path_query(path, qa),
        find_from(path_query(path, qa), 0x3fu8, 0) == str_bytes(path).len(),
        normalize_path(path_query(path, qa).subrange(0, str_bytes(path).len() as int)) == str_bytes(path),
        query_all_of(path_query(path, qa).subrange(str_bytes(path).len() + 1int, path_query(path, qa).len() as int)) == qa,
        text_of(str_bytes(path)) == path,
{
    let pb = str_bytes(path);
    lemma_normal_path(pb);
    encode_utf8_valid_utf8(path);
    encode_utf8_decode_utf8(path);
    let ps = query_pairs(qa);
    lemma_query_pairs_bytes(qa);
    lemma_join_pairs(ps);
    let q = join_bytes(ps, 0x26u8);
    let pq = path_query(path, qa);
    assert(path_and_query_bytes(path, qa) == pq);
    assert forall|i: int| 0 <= i < q.len() implies {
        let c = #[trigger] q[i];
        c < 0x80 && c != 0x23u8 && c != 0x3fu8 && c != 0x20u8 && !(0x09u8 <= c <= 0x0du8)
    } by {
        let c = q[i];
        assert(pair_byte(c) || c == 0x26u8);
    }
    let tq = seq![0x3fu8] + q;
    assert(all_ascii(tq)) by {
        assert forall|i: int| 0 <= i < tq.len() implies #[trigger] tq[i] < 0x80 by {
            if i > 0 {
                assert(tq[i] == q[i - 1]);
            }
        }
    }
    lemma_ascii_text(tq);
    assert(pq =~= pb + tq);
    valid_utf8_concat(pb, tq);
    lemma_find_absent(pb, 0x3fu8, 0);
    lemma_find_prefix(pb, tq, 0x3fu8, 0);
    assert(pq[0] == 0x2fu8);
    assert(pq.last() == q.last());
    assert(q.last() == q[q.len() - 1]);
    assert forall|j: int| 0 <= j < pq.len() implies #[trigger] pq[j] != 0x23u8 by {
        if j >= pb.len() + 1 {
            assert(pq[j] == q[j - pb.len() - 1]);
        } else if j < pb.len() {
            assert(pq[j] == pb[j]);
        }
    }
    assert(!starts_with_two(pq, 0x2fu8)) by {
        if pb.len() >= 2 {
            assert(pq[1] == pb[1]);
        } else {
            assert(pq[1] == 0x3fu8);
        }
    }
    lemma_strip_keeps_path(pq);
    assert(pq.subrange(0, pb.len() as int) =~= pb);
    assert(pq.subrange(pb.len() + 1int, pq.len() as int) =~= q);
    assert(q[0] != 0x3fu8) by { assert(pair_byte(q[0])); }
    assert(strip_question(q) =~= q) by {
        assert(q.subrange(0, q.len() as int) =~= q);
    }
    assert forall|i: int, j: int| 0 <= i < ps.len() && 0 <= j < ps[i].len() implies #[trigger] ps[i][j] != 0x26u8 && ps[i][j] != 0x3bu8 by {
        assert(pair_byte(ps[i][j]));
    }
    lemma_split_join_bytes(ps, 0x26u8, 0x3bu8);
    lemma_query_fold_from_empty(ps);
    lemma_fold_query_pairs(qa);
}

/// A location that prints to a route string it can be read back from: a
/// normalised path without `?`, `#` or a leading `//`; a query map whose
/// keys are non-empty and each hold at least one value; and no fragment, or
/// a non-empty one that does not start with `/` or `!/`.
pub open spec fn printable(path: Seq<char>, qa: QueryView, fragment: Option<Seq<char>>) -> bool {
    &&& normalize_path(str_bytes(path)) == str_bytes(path)
    &&& forall|i: int| 0 <= i < str_bytes(path).len() ==> #[trigger] str_bytes(path)[i] != 0x3fu8 && str_bytes(path)[i] != 0x23u8
    &&& !starts_with_two(str_bytes(path), 0x2fu8)
    &&& forall|i: int| 0 <= i < qa.len() ==> (#[trigger] qa[i]).0.len() > 0 && qa[i].1.len() > 0
    &&& (fragment matches Some(f) ==> f.len() > 0 && !starts_with_byte(str_bytes(f), 0x2fu8)
            && !(str_bytes(f).len() >= 2 && str_bytes(f)[0] == 0x21u8 && str_bytes(f)[1] == 0x2fu8))
}

/// Printing a location and parsing the route string gives the location
/// back: a normalised path without `?`, `#` or a leading `//`; a query map
/// with sorted non-empty keys, each holding at least one value; and no
/// fragment, or a non-empty one that does not start with `/` or `!/`.
#[verifier::spinoff_prover]
#[verifier::rlimit(80)]
pub proof fn law_parse_undoes_print(path: Seq<char>, qa: QueryView, fragment: Option<Seq<char>>)
    requires
        printable(path, qa, fragment),
        keys_sorted(qa),
    ensures
        text_of(route_parts(str_bytes(text_of(route_string_bytes(path, qa, fragment))), false).0) == path,
        query_all_of(route_parts(str_bytes(text_of(route_string_bytes(path, qa, fragment))), false).1) == qa,
        first_values(query_all_of(route_parts(str_bytes(text_of(route_string_bytes(path, qa, fragment))), false).1)) == first_values(qa),
        frag_view(route_parts(str_bytes(text_of(route_string_bytes(path, qa, fragment))), false).2) == fragment,
{
    if qa.len() == 0 {
        assert(qa =~= Seq::<(Seq<char>, Seq<Seq<char>>)>::empty());
        lemma_parse_undoes_print_without_query(path, fragment);
        return;
    }
    lemma_path_query_bytes(path, qa);
    match fragment {
        None => lemma_parse_path_query(path, qa),
        Some(f) => lemma_parse_path_query_fragment(path, qa, f),
    }
}

/// Parsing a printed path with a query and no fragment.
#[verifier::spinoff_prover]
#[verifier::rlimit(80)]
pub proof fn lemma_parse_path_query(path: Seq<char>, qa: QueryView)
    requires
        path_and_query_bytes(path, qa) == path_query(path, qa),
        qa.len() > 0,
        valid_utf8(path_query(path, qa)),
        path_query(path, qa)[0] == 0x2fu8,
        path_query(path, qa).last() < 0x80,
        path_query(path, qa).last() != 0x20u8,
        !(0x09u8 <= path_query(path, qa).last() <= 0x0du8),
        forall|j: int| 0 <= j < path_query(path, qa).len() ==> #[trigger] path_query(path, qa)[j] != 0x23u8,
        strip_url_prefix(path_query(path, qa)) == path_query(path, qa),
        find_from(path_query(path, qa), 0x3fu8, 0) == str_bytes(path).len(),
        normalize_path(path_query(path, qa).subrange(0, str_bytes(path).len() as int)) == str_bytes(path),
        query_all_of(path_query(path, qa).subrange(str_bytes(path).len() + 1int, path_query(path, qa).len() as int)) == qa,
        text_of(str_bytes(path)) == path,
    ensures
        text_of(route_parts(str_bytes(text_of(route_string_bytes(path, qa, None))), false).0) == path,
        query_all_of(route_parts(str_bytes(text_of(route_string_bytes(path, qa, None))), false).1) == qa,
        frag_view(route_parts(str_bytes(text_of(route_string_bytes(path, qa, None))), false).2) == None::<Seq<char>>,
{
    let pq = path_query(path, qa);
    assert(route_string_bytes(path, qa, None) == pq);
    decode_utf8_encode_utf8(pq);
    assert(str_bytes(text_of(pq)) == pq);
    lemma_trim_keeps(pq);
    lemma_find_absent(pq, 0x23u8, 0);
    assert(before_byte(pq, 0x23u8) =~= pq);
    assert(after_byte(pq, 0x23u8) is None);
}

/// Parsing a printed path with a query and a fragment.
#[verifier::spinoff_prover]
#[verifier::rlimit(80)]
pub proof fn lemma_parse_path_query_fragment(path: Seq<char>, qa: QueryView, f: Seq<char>)
    requires
        path_and_query_bytes(path, qa) == path_query(path, qa),
        qa.len() > 0,
        valid_utf8(path_query(path, qa)),
        path_query(path, qa)[0] == 0x2fu8,
        forall|j: int| 0 <= j < path_query(path, qa).len() ==> #[trigger] path_query(path, qa)[j] != 0x23u8,
        strip_url_prefix(path_query(path, qa)) == path_query(path, qa),
        find_from(path_query(path, qa), 0x3fu8, 0) == str_bytes(path).len(),
        normalize_path(path_query(path, qa).subrange(0, str_bytes(path).len() as int)) == str_bytes(path),
        query_all_of(path_query(path, qa).subrange(str_bytes(path).len() + 1int, path_query(path, qa).len() as int)) == qa,
        text_of(str_bytes(path)) == path,
        f.len() > 0,
        !starts_with_byte(str_bytes(f), 0x2fu8),
        !(str_bytes(f).len() >= 2 && str_bytes(f)[0] == 0x21u8 && str_bytes(f)[1] == 0x2fu8),
    ensures
        text_of(route_parts(str_bytes(text_of(route_string_bytes(path, qa, Some(f)))), false).0) == path,
        query_all_of(route_parts(str_bytes(text_of(route_string_bytes(path, qa, Some(f)))), false).1) == qa,
        frag_view(route_parts(str_bytes(text_of(route_string_bytes(path, qa, Some(f)))), false).2) == Some(f),
{
    let pq = path_query(path, qa);
    let fb = str_bytes(f);
    encode_utf8_valid_utf8(f);
    encode_utf8_decode_utf8(f);
    let e = percent_encode(fb, false, true);
    lemma_str_bytes_nonempty(f);
    lemma_fragment_not_hash_route(fb);
    lemma_fragment_encoding_bytes(fb);
    let rsb = route_string_bytes(path, qa, Some(f));
    assert(rsb == pq + seq![0x23u8] + e);
    let te = seq![0x23u8] + e;
    assert(all_ascii(te)) by {
        assert forall|i: int| 0 <= i < te.len() implies #[trigger] te[i] < 0x80 by {
            if i > 0 {
                assert(te[i] == e[i - 1]);
            }
        }
    }
    lemma_ascii_text(te);
    assert(rsb =~= pq + te);
    valid_utf8_concat(pq, te);
    decode_utf8_encode_utf8(rsb);
    assert(str_bytes(text_of(rsb)) == rsb);
    let m = rsb.len() as int;
    assert(rsb[0] == 0x2fu8);
    assert(rsb.last() == e[e.len() - 1]);
    lemma_trim_keeps(rsb);
    lemma_find_prefix(pq, te, 0x23u8, 0);
    assert(rsb.subrange(pq.len() + 1int, m) =~= e);
    assert(before_byte(rsb, 0x23u8) =~= pq);
    law_decode_undoes_encode(fb, false, true, false);
    assert(lossy_decode(e, false) == f);
}

} // verus!
