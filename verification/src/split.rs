//! Splitting byte strings at separator bytes and finding bytes.

use vstd::prelude::*;

verus! {

/// Index of the first `x` in `b` at or after `from`, or `b.len()` if none.
pub open spec fn find_from(b: Seq<u8>, x: u8, from: int) -> int
    decreases b.len() - from,
{
    if from < 0 || from >= b.len() {
        b.len() as int
    } else if b[from] == x {
        from
    } else {
        find_from(b, x, from + 1)
    }
}

/// Index of the first separator (`s1` or `s2`) at or after `from`, or
/// `b.len()` if none.
pub open spec fn next_sep(b: Seq<u8>, s1: u8, s2: u8, from: int) -> int
    decreases b.len() - from,
{
    if from < 0 || from >= b.len() {
        b.len() as int
    } else if b[from] == s1 || b[from] == s2 {
        from
    } else {
        next_sep(b, s1, s2, from + 1)
    }
}

/// The pieces of `b` from `from` on between separators (empty pieces kept).
pub open spec fn parts_from(b: Seq<u8>, s1: u8, s2: u8, from: int) -> Seq<Seq<u8>>
    decreases b.len() + 1 - from,
{
    if from < 0 || from > b.len() {
        Seq::empty()
    } else {
        let e = next_sep(b, s1, s2, from);
        proof {
            lemma_next_sep_bounds(b, s1, s2, from);
        }
        if e >= b.len() {
            seq![b.subrange(from, b.len() as int)]
        } else {
            seq![b.subrange(from, e)] + parts_from(b, s1, s2, e + 1)
        }
    }
}

/// `b` split at every `s1` or `s2` byte, as `str::split` does.
pub open spec fn split_parts(b: Seq<u8>, s1: u8, s2: u8) -> Seq<Seq<u8>> {
    parts_from(b, s1, s2, 0)
}

pub proof fn lemma_find_from_bounds(b: Seq<u8>, x: u8, from: int)
    requires
        0 <= from <= b.len(),
    ensures
        from <= find_from(b, x, from) <= b.len(),
        find_from(b, x, from) < b.len() ==> b[find_from(b, x, from)] == x,
        forall|k: int| from <= k < find_from(b, x, from) ==> b[k] != x,
    decreases b.len() - from,
{
    if from < b.len() && b[from] != x {
        lemma_find_from_bounds(b, x, from + 1);
    }
}

pub proof fn lemma_next_sep_bounds(b: Seq<u8>, s1: u8, s2: u8, from: int)
    requires
        0 <= from <= b.len(),
    ensures
        from <= next_sep(b, s1, s2, from) <= b.len(),
        next_sep(b, s1, s2, from) < b.len() ==> (b[next_sep(b, s1, s2, from)] == s1 || b[next_sep(b, s1, s2, from)] == s2),
        forall|k: int| from <= k < next_sep(b, s1, s2, from) ==> b[k] != s1 && b[k] != s2,
    decreases b.len() - from,
{
    if from < b.len() && b[from] != s1 && b[from] != s2 {
        lemma_next_sep_bounds(b, s1, s2, from + 1);
    }
}

/// Returns the index of the first `x` in `b` at or after `from`, or `b.len()`.
pub fn find_byte(b: &[u8], x: u8, from: usize) -> (r: usize)
    requires
        from <= b@.len(),
    ensures
        r == find_from(b@, x, from as int),
        from <= r <= b@.len(),
{
    let n = b.len();
    let mut i = from;
    while i < n
        invariant
            n == b@.len(),
            from <= i <= n,
            find_from(b@, x, from as int) == find_from(b@, x, i as int),
        decreases n - i,
    {
        if b[i] == x {
            return i;
        }
        i = i + 1;
    }
    i
}

/// Splits `b` at every `s1` or `s2` byte and returns the piece boundaries
/// as `(start, end)` pairs.
pub fn split_ranges(b: &[u8], s1: u8, s2: u8) -> (r: Vec<(usize, usize)>)
    ensures
        r@.len() == split_parts(b@, s1, s2).len(),
        forall|i: int| #![trigger r@[i]] 0 <= i < r@.len() ==> {
            &&& r@[i].0 <= r@[i].1 <= b@.len()
            &&& b@.subrange(r@[i].0 as int, r@[i].1 as int) == split_parts(b@, s1, s2)[i]
        },
{
    let n = b.len();
    let mut r: Vec<(usize, usize)> = Vec::new();
    let mut start: usize = 0;
    let mut i: usize = 0;
    proof {
        lemma_next_sep_bounds(b@, s1, s2, 0);
    }
    while i < n
        invariant
            n == b@.len(),
            start <= i <= n,
            next_sep(b@, s1, s2, start as int) == next_sep(b@, s1, s2, i as int),
            split_parts(b@, s1, s2) =~= r@.map_values(|p: (usize, usize)| b@.subrange(p.0 as int, p.1 as int))
                + parts_from(b@, s1, s2, start as int),
            forall|k: int| 0 <= k < r@.len() ==> (#[trigger] r@[k]).0 <= r@[k].1 <= n,
        decreases n - i,
    {
        if b[i] == s1 || b[i] == s2 {
            proof {
                lemma_next_sep_bounds(b@, s1, s2, i as int);
            }
            let ghost before = r@;
            r.push((start, i));
            assert(r@.map_values(|p: (usize, usize)| b@.subrange(p.0 as int, p.1 as int))
                =~= before.map_values(|p: (usize, usize)| b@.subrange(p.0 as int, p.1 as int))
                    + seq![b@.subrange(start as int, i as int)]);
            start = i + 1;
        }
        i = i + 1;
    }
    proof {
        lemma_next_sep_bounds(b@, s1, s2, n as int);
    }
    let ghost before = r@;
    r.push((start, n));
    assert(r@.map_values(|p: (usize, usize)| b@.subrange(p.0 as int, p.1 as int))
        =~= before.map_values(|p: (usize, usize)| b@.subrange(p.0 as int, p.1 as int))
            + seq![b@.subrange(start as int, n as int)]);
    let ghost m = r@.map_values(|p: (usize, usize)| b@.subrange(p.0 as int, p.1 as int));
    assert(split_parts(b@, s1, s2) =~= m);
    assert forall|k: int| 0 <= k < r@.len() implies
        b@.subrange(r@[k].0 as int, r@[k].1 as int) == #[trigger] split_parts(b@, s1, s2)[k] by {
        assert(m[k] == b@.subrange(r@[k].0 as int, r@[k].1 as int));
    }
    r
}

/// Searching for a separator is unchanged by bytes put in front.
pub proof fn lemma_next_sep_shift(p: Seq<u8>, c: Seq<u8>, s1: u8, s2: u8, i: int)
    requires
        0 <= i <= c.len(),
    ensures
        next_sep(p + c, s1, s2, p.len() + i) == p.len() + next_sep(c, s1, s2, i),
    decreases c.len() - i,
{
    if i < c.len() {
        assert((p + c)[p.len() + i] == c[i]);
        lemma_next_sep_shift(p, c, s1, s2, i + 1);
    }
}

/// Splitting is unchanged by bytes put in front.
pub proof fn lemma_parts_from_shift(p: Seq<u8>, c: Seq<u8>, s1: u8, s2: u8, i: int)
    requires
        0 <= i <= c.len(),
    ensures
        parts_from(p + c, s1, s2, p.len() + i) == parts_from(c, s1, s2, i),
    decreases c.len() + 1 - i,
{
    let b = p + c;
    lemma_next_sep_shift(p, c, s1, s2, i);
    lemma_next_sep_bounds(c, s1, s2, i);
    let e = next_sep(c, s1, s2, i);
    if e >= c.len() {
        assert(b.subrange(p.len() + i, b.len() as int) =~= c.subrange(i, c.len() as int));
    } else {
        assert(b.subrange(p.len() + i, p.len() + e) =~= c.subrange(i, e));
        lemma_parts_from_shift(p, c, s1, s2, e + 1);
    }
}

/// A separator search inside `a` is not changed by what follows `a`, and
/// one that runs off `a` stops at a separator right after it.
pub proof fn lemma_next_sep_prefix(a: Seq<u8>, t: Seq<u8>, s1: u8, s2: u8, from: int)
    requires
        0 <= from <= a.len(),
        t.len() > 0,
        t[0] == s1 || t[0] == s2,
    ensures
        next_sep(a + t, s1, s2, from) == next_sep(a, s1, s2, from),
    decreases a.len() - from,
{
    if from < a.len() {
        assert((a + t)[from] == a[from]);
        lemma_next_sep_prefix(a, t, s1, s2, from + 1);
    } else {
        assert((a + t)[from] == t[0]);
    }
}

/// Splitting `a`, a separator and `c` splits `a` and `c` apart.
pub proof fn lemma_split_around(a: Seq<u8>, s: u8, c: Seq<u8>, from: int)
    requires
        0 <= from <= a.len(),
    ensures
        parts_from(a + seq![s] + c, s, s, from) == parts_from(a, s, s, from) + parts_from(c, s, s, 0),
    decreases a.len() - from,
{
    let b = a + seq![s] + c;
    let t = seq![s] + c;
    assert(b =~= a + t);
    lemma_next_sep_prefix(a, t, s, s, from);
    lemma_next_sep_bounds(a, s, s, from);
    let e = next_sep(a, s, s, from);
    if e < a.len() {
        assert(b.subrange(from, e) =~= a.subrange(from, e));
        lemma_split_around(a, s, c, e + 1);
        assert(seq![a.subrange(from, e)] + (parts_from(a, s, s, e + 1) + parts_from(c, s, s, 0))
            =~= (seq![a.subrange(from, e)] + parts_from(a, s, s, e + 1)) + parts_from(c, s, s, 0));
    } else {
        assert(b.subrange(from, e) =~= a.subrange(from, a.len() as int));
        assert(b =~= (a + seq![s]) + c);
        lemma_parts_from_shift(a + seq![s], c, s, s, 0);
    }
}

/// Without a separator, splitting gives the whole sequence back.
pub proof fn lemma_split_whole(x: Seq<u8>, s: u8, from: int)
    requires
        0 <= from <= x.len(),
        forall|i: int| 0 <= i < x.len() ==> x[i] != s,
    ensures
        next_sep(x, s, s, from) == x.len(),
        parts_from(x, s, s, from) == seq![x.subrange(from, x.len() as int)],
    decreases x.len() - from,
{
    if from < x.len() {
        lemma_split_whole(x, s, from + 1);
    }
}

} // verus!
