//! Sorted string maps used for route parameters and query strings.
//!
//! Keys are kept in ascending order of their UTF-8 bytes (the order of
//! `String`'s `Ord`), so each map has exactly one representation and query
//! strings come out with their keys sorted.

use vstd::prelude::*;
use vstd::utf8::{decode_utf8, encode_utf8, encode_utf8_decode_utf8};

verus! {

/// Strict lexicographic order on byte sequences.
pub open spec fn bytes_lt(a: Seq<u8>, b: Seq<u8>) -> bool
    decreases a.len(),
{
    if a.len() == 0 {
        b.len() > 0
    } else if b.len() == 0 {
        false
    } else if a[0] < b[0] {
        true
    } else if a[0] > b[0] {
        false
    } else {
        bytes_lt(a.drop_first(), b.drop_first())
    }
}

/// Order of keys: lexicographic on their UTF-8 bytes.
pub open spec fn key_lt(a: Seq<char>, b: Seq<char>) -> bool {
    bytes_lt(encode_utf8(a), encode_utf8(b))
}

pub proof fn lemma_bytes_lt_irreflexive(a: Seq<u8>)
    ensures
        !bytes_lt(a, a),
    decreases a.len(),
{
    if a.len() > 0 {
        lemma_bytes_lt_irreflexive(a.drop_first());
    }
}

pub proof fn lemma_bytes_lt_transitive(a: Seq<u8>, b: Seq<u8>, c: Seq<u8>)
    requires
        bytes_lt(a, b),
        bytes_lt(b, c),
    ensures
        bytes_lt(a, c),
    decreases a.len(),
{
    if a.len() > 0 && b.len() > 0 && c.len() > 0 && a[0] == b[0] && b[0] == c[0] {
        lemma_bytes_lt_transitive(a.drop_first(), b.drop_first(), c.drop_first());
    }
}

pub proof fn lemma_bytes_lt_total(a: Seq<u8>, b: Seq<u8>)
    requires
        a != b,
    ensures
        bytes_lt(a, b) || bytes_lt(b, a),
    decreases a.len(),
{
    if a.len() > 0 && b.len() > 0 && a[0] == b[0] {
        if a.drop_first() == b.drop_first() {
            assert(a =~= seq![a[0]] + a.drop_first());
            assert(b =~= seq![b[0]] + b.drop_first());
        }
        lemma_bytes_lt_total(a.drop_first(), b.drop_first());
    } else if a.len() == 0 && b.len() == 0 {
        assert(a =~= b);
    }
}

pub proof fn lemma_bytes_lt_asymmetric(a: Seq<u8>, b: Seq<u8>)
    requires
        bytes_lt(a, b),
    ensures
        !bytes_lt(b, a),
{
    if bytes_lt(b, a) {
        lemma_bytes_lt_transitive(a, b, a);
        lemma_bytes_lt_irreflexive(a);
    }
}

pub proof fn lemma_key_lt_total(a: Seq<char>, b: Seq<char>)
    requires
        a != b,
    ensures
        key_lt(a, b) || key_lt(b, a),
{
    if encode_utf8(a) == encode_utf8(b) {
        encode_utf8_decode_utf8(a);
        encode_utf8_decode_utf8(b);
    }
    lemma_bytes_lt_total(encode_utf8(a), encode_utf8(b));
}

/// Outcome of comparing two keys.
#[derive(Clone, Copy, Debug, PartialEq, Eq, Structural)]
pub enum KeyOrder {
    /// The first key sorts first.
    Less,
    /// The keys are equal.
    Equal,
    /// The first key sorts last.
    Greater,
}

/// Compares two byte strings lexicographically.
pub fn compare_bytes(a: &[u8], b: &[u8]) -> (r: KeyOrder)
    ensures
        r == KeyOrder::Less <==> bytes_lt(a@, b@),
        r == KeyOrder::Equal <==> a@ == b@,
        r == KeyOrder::Greater <==> bytes_lt(b@, a@),
{
    let mut i: usize = 0;
    let n = a.len();
    let m = b.len();
    assert(a@.skip(0) =~= a@);
    assert(b@.skip(0) =~= b@);
    while i < n && i < m && a[i] == b[i]
        invariant
            n == a@.len(),
            m == b@.len(),
            i <= n,
            i <= m,
            a@.take(i as int) == b@.take(i as int),
            bytes_lt(a@, b@) == bytes_lt(a@.skip(i as int), b@.skip(i as int)),
            bytes_lt(b@, a@) == bytes_lt(b@.skip(i as int), a@.skip(i as int)),
        decreases n - i,
    {
        assert(a@.skip(i as int).drop_first() =~= a@.skip(i + 1));
        assert(b@.skip(i as int).drop_first() =~= b@.skip(i + 1));
        assert(a@.take(i + 1) =~= a@.take(i as int).push(a@[i as int]));
        assert(b@.take(i + 1) =~= b@.take(i as int).push(b@[i as int]));
        i = i + 1;
    }
    if i == n && i == m {
        assert(a@ =~= a@.take(i as int));
        assert(b@ =~= b@.take(i as int));
        proof { lemma_bytes_lt_irreflexive(a@); }
        KeyOrder::Equal
    } else if i == n {
        proof {
            assert(a@.skip(i as int).len() == 0);
            if a@ == b@ {}
            lemma_bytes_lt_asymmetric(a@, b@);
        }
        KeyOrder::Less
    } else if i == m {
        proof {
            assert(b@.skip(i as int).len() == 0);
            lemma_bytes_lt_asymmetric(b@, a@);
        }
        KeyOrder::Greater
    } else if a[i] < b[i] {
        proof {
            assert(a@.skip(i as int)[0] == a@[i as int]);
            assert(b@.skip(i as int)[0] == b@[i as int]);
            assert(a@[i as int] != b@[i as int]);
            lemma_bytes_lt_asymmetric(a@, b@);
        }
        KeyOrder::Less
    } else {
        proof {
            assert(a@.skip(i as int)[0] == a@[i as int]);
            assert(b@.skip(i as int)[0] == b@[i as int]);
            assert(a@[i as int] != b@[i as int]);
            lemma_bytes_lt_asymmetric(b@, a@);
        }
        KeyOrder::Greater
    }
}

/// Compares two keys by their UTF-8 bytes.
pub fn compare_keys(a: &str, b: &str) -> (r: KeyOrder)
    ensures
        r == KeyOrder::Less <==> key_lt(a@, b@),
        r == KeyOrder::Equal <==> a@ == b@,
        r == KeyOrder::Greater <==> key_lt(b@, a@),
{
    let r = compare_bytes(a.as_bytes(), b.as_bytes());
    proof {
        if encode_utf8(a@) == encode_utf8(b@) {
            encode_utf8_decode_utf8(a@);
            encode_utf8_decode_utf8(b@);
        }
    }
    r
}


/// Keys in strictly ascending order (hence no key twice).
pub open spec fn keys_sorted<V>(s: Seq<(Seq<char>, V)>) -> bool {
    forall|i: int, j: int| 0 <= i < j < s.len() ==> key_lt(#[trigger] s[i].0, #[trigger] s[j].0)
}

/// Lookup in a key-sorted association list: the value of the first entry
/// with key `k`.
pub open spec fn assoc_get<V>(s: Seq<(Seq<char>, V)>, k: Seq<char>) -> Option<V>
    decreases s.len(),
{
    if s.len() == 0 {
        None
    } else if s[0].0 == k {
        Some(s[0].1)
    } else {
        assoc_get(s.drop_first(), k)
    }
}

/// Sets `k` to `v`, replacing an existing entry or inserting a new one at
/// its sorted position.
pub open spec fn assoc_put<V>(s: Seq<(Seq<char>, V)>, k: Seq<char>, v: V) -> Seq<(Seq<char>, V)>
    decreases s.len(),
{
    if s.len() == 0 {
        seq![(k, v)]
    } else if s[0].0 == k {
        seq![(k, v)] + s.drop_first()
    } else if key_lt(k, s[0].0) {
        seq![(k, v)] + s
    } else {
        seq![s[0]] + assoc_put(s.drop_first(), k, v)
    }
}

/// Removes the entry with key `k`, if any.
pub open spec fn assoc_remove<V>(s: Seq<(Seq<char>, V)>, k: Seq<char>) -> Seq<(Seq<char>, V)>
    decreases s.len(),
{
    if s.len() == 0 {
        s
    } else if s[0].0 == k {
        s.drop_first()
    } else {
        seq![s[0]] + assoc_remove(s.drop_first(), k)
    }
}

/// Appends `v` to the values of `k` (creating the entry when missing).
pub open spec fn multi_push(s: Seq<(Seq<char>, Seq<Seq<char>>)>, k: Seq<char>, v: Seq<char>) -> Seq<(Seq<char>, Seq<Seq<char>>)>
    decreases s.len(),
{
    if s.len() == 0 {
        seq![(k, seq![v])]
    } else if s[0].0 == k {
        seq![(k, s[0].1.push(v))] + s.drop_first()
    } else if key_lt(k, s[0].0) {
        seq![(k, seq![v])] + s
    } else {
        seq![s[0]] + multi_push(s.drop_first(), k, v)
    }
}

/// The first value of each key that has one.
pub open spec fn first_values(s: Seq<(Seq<char>, Seq<Seq<char>>)>) -> Seq<(Seq<char>, Seq<char>)>
    decreases s.len(),
{
    if s.len() == 0 {
        Seq::empty()
    } else if s[0].1.len() > 0 {
        seq![(s[0].0, s[0].1[0])] + first_values(s.drop_first())
    } else {
        first_values(s.drop_first())
    }
}

/// A map from string keys to one string value each.
#[derive(Debug, PartialEq, Eq)]
pub struct StrMap {
    entries: Vec<(String, String)>,
}

/// A map from string keys to a list of string values (repeated query keys).
#[derive(Debug, PartialEq, Eq)]
pub struct QueryMap {
    entries: Vec<(String, Vec<String>)>,
}

pub open spec fn strings_view(v: Seq<String>) -> Seq<Seq<char>> {
    v.map_values(|s: String| s@)
}

impl View for StrMap {
    type V = Seq<(Seq<char>, Seq<char>)>;

    closed spec fn view(&self) -> Seq<(Seq<char>, Seq<char>)> {
        str_view(self.entries@)
    }
}

impl View for QueryMap {
    type V = Seq<(Seq<char>, Seq<Seq<char>>)>;

    closed spec fn view(&self) -> Seq<(Seq<char>, Seq<Seq<char>>)> {
        query_view(self.entries@)
    }
}

/// The text of single-valued entries.
spec fn str_view(v: Seq<(String, String)>) -> Seq<(Seq<char>, Seq<char>)> {
    v.map_values(|e: (String, String)| (e.0@, e.1@))
}

/// The text of multi-valued entries.
spec fn query_view(v: Seq<(String, Vec<String>)>) -> Seq<(Seq<char>, Seq<Seq<char>>)> {
    v.map_values(|e: (String, Vec<String>)| (e.0@, strings_view(e.1@)))
}

impl StrMap {
    /// The keys are in strictly increasing order, so each occurs once.
    #[verifier::type_invariant]
    pub open spec fn keys_in_order(self) -> bool {
        keys_sorted(self@)
    }
}

impl QueryMap {
    /// The keys are in strictly increasing order, so each occurs once.
    #[verifier::type_invariant]
    pub open spec fn keys_in_order(self) -> bool {
        keys_sorted(self@)
    }
}

fn insert_entry(entries: &mut Vec<(String, String)>, key: String, value: String)
    ensures
        str_view(final(entries)@) == assoc_put(str_view(old(entries)@), key@, value@),
{
    let n = entries.len();
    let mut i: usize = 0;
    let ghost m0 = str_view(entries@);
    assert(m0.skip(0) =~= m0);
    assert(m0.take(0) =~= Seq::<(Seq<char>, Seq<char>)>::empty());
    while i < n
        invariant
            n == str_view(entries@).len(),
            str_view(entries@) == m0,
            m0 == str_view(old(entries)@),
            i <= n,
            assoc_put(m0, key@, value@) == m0.take(i as int) + assoc_put(m0.skip(i as int), key@, value@),
        decreases n - i,
    {
        let o = compare_keys(key.as_str(), entries[i].0.as_str());
        assert(m0.skip(i as int)[0] == m0[i as int]);
        assert(m0.skip(i as int).drop_first() =~= m0.skip(i + 1));
        if o == KeyOrder::Equal {
            let ghost before = entries@;
            entries.set(i, (key, value));
            assert(str_view(entries@) =~= m0.take(i as int) + assoc_put(m0.skip(i as int), key@, value@));
            return;
        } else if o == KeyOrder::Less {
            let ghost before = entries@;
            entries.insert(i, (key, value));
            assert(str_view(entries@) =~= m0.take(i as int) + assoc_put(m0.skip(i as int), key@, value@));
            return;
        }
        assert(m0.take(i + 1) =~= m0.take(i as int) + seq![m0[i as int]]);
        i = i + 1;
    }
    assert(m0.skip(n as int) =~= Seq::<(Seq<char>, Seq<char>)>::empty());
    assert(m0.take(n as int) =~= m0);
    entries.push((key, value));
    assert(str_view(entries@) =~= m0 + seq![(key@, value@)]);
}

fn remove_entry(entries: &mut Vec<(String, String)>, key: &str)
    ensures
        str_view(final(entries)@) == assoc_remove(str_view(old(entries)@), key@),
{
    let n = entries.len();
    let mut i: usize = 0;
    let ghost m0 = str_view(entries@);
    assert(m0.skip(0) =~= m0);
    assert(m0.take(0) =~= Seq::<(Seq<char>, Seq<char>)>::empty());
    while i < n
        invariant
            n == str_view(entries@).len(),
            str_view(entries@) == m0,
            m0 == str_view(old(entries)@),
            i <= n,
            assoc_remove(m0, key@) == m0.take(i as int) + assoc_remove(m0.skip(i as int), key@),
        decreases n - i,
    {
        assert(m0.skip(i as int)[0] == m0[i as int]);
        assert(m0.skip(i as int).drop_first() =~= m0.skip(i + 1));
        if compare_keys(entries[i].0.as_str(), key) == KeyOrder::Equal {
            entries.remove(i);
            assert(str_view(entries@) =~= m0.take(i as int) + assoc_remove(m0.skip(i as int), key@));
            return;
        }
        assert(m0.take(i + 1) =~= m0.take(i as int) + seq![m0[i as int]]);
        i = i + 1;
    }
    assert(m0.skip(n as int) =~= Seq::<(Seq<char>, Seq<char>)>::empty());
    assert(m0.take(n as int) =~= m0);
}

fn put_entry(entries: &mut Vec<(String, Vec<String>)>, key: String, values: Vec<String>)
    ensures
        query_view(final(entries)@) == assoc_put(query_view(old(entries)@), key@, strings_view(values@)),
{
    let n = entries.len();
    let mut i: usize = 0;
    let ghost m0 = query_view(entries@);
    let ghost vs = strings_view(values@);
    assert(m0.skip(0) =~= m0);
    assert(m0.take(0) =~= Seq::<(Seq<char>, Seq<Seq<char>>)>::empty());
    while i < n
        invariant
            n == query_view(entries@).len(),
            query_view(entries@) == m0,
            m0 == query_view(old(entries)@),
            vs == strings_view(values@),
            i <= n,
            assoc_put(m0, key@, vs) == m0.take(i as int) + assoc_put(m0.skip(i as int), key@, vs),
        decreases n - i,
    {
        let o = compare_keys(key.as_str(), entries[i].0.as_str());
        assert(m0.skip(i as int)[0] == m0[i as int]);
        assert(m0.skip(i as int).drop_first() =~= m0.skip(i + 1));
        if o == KeyOrder::Equal {
            entries.set(i, (key, values));
            assert(query_view(entries@) =~= m0.take(i as int) + assoc_put(m0.skip(i as int), key@, vs));
            return;
        } else if o == KeyOrder::Less {
            entries.insert(i, (key, values));
            assert(query_view(entries@) =~= m0.take(i as int) + assoc_put(m0.skip(i as int), key@, vs));
            return;
        }
        assert(m0.take(i + 1) =~= m0.take(i as int) + seq![m0[i as int]]);
        i = i + 1;
    }
    assert(m0.skip(n as int) =~= Seq::<(Seq<char>, Seq<Seq<char>>)>::empty());
    assert(m0.take(n as int) =~= m0);
    entries.push((key, values));
    assert(query_view(entries@) =~= m0 + seq![(key@, vs)]);
}

fn push_entry_value(entries: &mut Vec<(String, Vec<String>)>, key: String, value: String)
    ensures
        query_view(final(entries)@) == multi_push(query_view(old(entries)@), key@, value@),
{
    let n = entries.len();
    let mut i: usize = 0;
    let ghost m0 = query_view(entries@);
    assert(m0.skip(0) =~= m0);
    assert(m0.take(0) =~= Seq::<(Seq<char>, Seq<Seq<char>>)>::empty());
    while i < n
        invariant
            n == query_view(entries@).len(),
            query_view(entries@) == m0,
            m0 == query_view(old(entries)@),
            i <= n,
            multi_push(m0, key@, value@) == m0.take(i as int) + multi_push(m0.skip(i as int), key@, value@),
        decreases n - i,
    {
        let o = compare_keys(key.as_str(), entries[i].0.as_str());
        assert(m0.skip(i as int)[0] == m0[i as int]);
        assert(m0.skip(i as int).drop_first() =~= m0.skip(i + 1));
        if o == KeyOrder::Equal {
            let (k, mut vals) = entries.remove(i);
            let ghost old_vals = vals@;
            vals.push(value);
            assert(strings_view(vals@) =~= strings_view(old_vals).push(value@));
            entries.insert(i, (k, vals));
            assert(query_view(entries@) =~= m0.take(i as int) + multi_push(m0.skip(i as int), key@, value@));
            return;
        } else if o == KeyOrder::Less {
            let mut vals: Vec<String> = Vec::new();
            vals.push(value);
            assert(strings_view(vals@) =~= seq![value@]);
            entries.insert(i, (key, vals));
            assert(query_view(entries@) =~= m0.take(i as int) + multi_push(m0.skip(i as int), key@, value@));
            return;
        }
        assert(m0.take(i + 1) =~= m0.take(i as int) + seq![m0[i as int]]);
        i = i + 1;
    }
    assert(m0.skip(n as int) =~= Seq::<(Seq<char>, Seq<Seq<char>>)>::empty());
    assert(m0.take(n as int) =~= m0);
    let mut vals: Vec<String> = Vec::new();
    vals.push(value);
    assert(strings_view(vals@) =~= seq![value@]);
    entries.push((key, vals));
    assert(query_view(entries@) =~= m0 + seq![(key@, seq![value@])]);
}

fn remove_query_entry(entries: &mut Vec<(String, Vec<String>)>, key: &str)
    ensures
        query_view(final(entries)@) == assoc_remove(query_view(old(entries)@), key@),
{
    let n = entries.len();
    let mut i: usize = 0;
    let ghost m0 = query_view(entries@);
    assert(m0.skip(0) =~= m0);
    assert(m0.take(0) =~= Seq::<(Seq<char>, Seq<Seq<char>>)>::empty());
    while i < n
        invariant
            n == query_view(entries@).len(),
            query_view(entries@) == m0,
            m0 == query_view(old(entries)@),
            i <= n,
            assoc_remove(m0, key@) == m0.take(i as int) + assoc_remove(m0.skip(i as int), key@),
        decreases n - i,
    {
        assert(m0.skip(i as int)[0] == m0[i as int]);
        assert(m0.skip(i as int).drop_first() =~= m0.skip(i + 1));
        if compare_keys(entries[i].0.as_str(), key) == KeyOrder::Equal {
            entries.remove(i);
            assert(query_view(entries@) =~= m0.take(i as int) + assoc_remove(m0.skip(i as int), key@));
            return;
        }
        assert(m0.take(i + 1) =~= m0.take(i as int) + seq![m0[i as int]]);
        i = i + 1;
    }
    assert(m0.skip(n as int) =~= Seq::<(Seq<char>, Seq<Seq<char>>)>::empty());
    assert(m0.take(n as int) =~= m0);
}

/// Clones a list of strings, keeping their text.
pub fn copy_strings(v: &Vec<String>) -> (r: Vec<String>)
    ensures
        strings_view(r@) == strings_view(v@),
{
    let mut r: Vec<String> = Vec::new();
    let mut i: usize = 0;
    while i < v.len()
        invariant
            i <= v@.len(),
            strings_view(r@) =~= strings_view(v@.take(i as int)),
        decreases v@.len() - i,
    {
        r.push(v[i].clone());
        assert(strings_view(v@.take(i + 1)) =~= strings_view(v@.take(i as int)).push(v@[i as int]@));
        i = i + 1;
    }
    assert(v@.take(i as int) =~= v@);
    r
}

impl StrMap {
    /// An empty map.
    pub fn new() -> (m: StrMap)
        ensures
            m@ == Seq::<(Seq<char>, Seq<char>)>::empty(),
    {
        StrMap { entries: Vec::new() }
    }

    /// Number of keys.
    pub fn len(&self) -> (n: usize)
        ensures
            n == self@.len(),
    {
        self.entries.len()
    }

    /// Whether the map has no key.
    pub fn is_empty(&self) -> (b: bool)
        ensures
            b == (self@.len() == 0),
    {
        self.entries.len() == 0
    }

    /// The key of the `i`-th entry in key order.
    pub fn key_at(&self, i: usize) -> (k: &String)
        requires
            i < self@.len(),
        ensures
            k@ == self@[i as int].0,
    {
        &self.entries[i].0
    }

    /// The value of the `i`-th entry in key order.
    pub fn value_at(&self, i: usize) -> (v: &String)
        requires
            i < self@.len(),
        ensures
            v@ == self@[i as int].1,
    {
        &self.entries[i].1
    }

    /// The value stored under `key`.
    pub fn get(&self, key: &str) -> (r: Option<&String>)
        ensures
            (match r { Some(v) => Some(v@), None => None }) == assoc_get(self@, key@),
    {
        let n = self.entries.len();
        let mut i: usize = 0;
        assert(self@.skip(0) =~= self@);
        while i < n
            invariant
                n == self@.len(),
                i <= n,
                assoc_get(self@, key@) == assoc_get(self@.skip(i as int), key@),
            decreases n - i,
        {
            assert(self@.skip(i as int).drop_first() =~= self@.skip(i + 1));
            assert(self@.skip(i as int)[0] == self@[i as int]);
            if compare_keys(self.entries[i].0.as_str(), key) == KeyOrder::Equal {
                return Some(&self.entries[i].1);
            }
            i = i + 1;
        }
        None
    }

    /// Whether `key` has a value.
    pub fn contains_key(&self, key: &str) -> (b: bool)
        ensures
            b == (assoc_get(self@, key@) is Some),
    {
        self.get(key).is_some()
    }

    /// Sets `key` to `value`, replacing any previous value.
    pub fn insert(&mut self, key: String, value: String)
        ensures
            final(self)@ == assoc_put(old(self)@, key@, value@),
    {
        proof {
            use_type_invariant(&*self);
            lemma_assoc_put_sorted(self@, key@, value@);
        }
        let mut entries: Vec<(String, String)> = Vec::new();
        std::mem::swap(&mut entries, &mut self.entries);
        insert_entry(&mut entries, key, value);
        self.entries = entries;
    }

    /// A copy with the same entries.
    pub fn copy(&self) -> (r: StrMap)
        ensures
            r@ == self@,
    {
        proof { use_type_invariant(self); }
        let mut entries: Vec<(String, String)> = Vec::new();
        let mut i: usize = 0;
        while i < self.entries.len()
            invariant
                i <= self@.len(),
                entries@.map_values(|e: (String, String)| (e.0@, e.1@)) =~= self@.take(i as int),
            decreases self@.len() - i,
        {
            let k = self.entries[i].0.clone();
            let v = self.entries[i].1.clone();
            entries.push((k, v));
            assert(self@.take(i + 1) =~= self@.take(i as int).push(self@[i as int]));
            i = i + 1;
        }
        assert(self@.take(self@.len() as int) =~= self@);
        StrMap { entries }
    }
}


pub proof fn lemma_key_lt_transitive(a: Seq<char>, b: Seq<char>, c: Seq<char>)
    requires
        key_lt(a, b),
        key_lt(b, c),
    ensures
        key_lt(a, c),
{
    lemma_bytes_lt_transitive(encode_utf8(a), encode_utf8(b), encode_utf8(c));
}

pub proof fn lemma_key_lt_irreflexive(a: Seq<char>)
    ensures
        !key_lt(a, a),
{
    lemma_bytes_lt_irreflexive(encode_utf8(a));
}

/// Every key of `s` sorts after `lo`.
pub open spec fn all_above<V>(s: Seq<(Seq<char>, V)>, lo: Seq<char>) -> bool {
    forall|i: int| 0 <= i < s.len() ==> key_lt(lo, #[trigger] s[i].0)
}

/// Setting a key keeps a sorted map sorted, and keeps a lower bound that
/// the new key respects.
pub proof fn lemma_assoc_put_sorted<V>(s: Seq<(Seq<char>, V)>, k: Seq<char>, v: V)
    requires
        keys_sorted(s),
    ensures
        keys_sorted(assoc_put(s, k, v)),
        forall|lo: Seq<char>| all_above(s, lo) && key_lt(lo, k) ==> #[trigger] all_above(assoc_put(s, k, v), lo),
    decreases s.len(),
{
    let r = assoc_put(s, k, v);
    if s.len() == 0 {
    } else if s[0].0 == k {
        assert forall|i: int, j: int| 0 <= i < j < r.len() implies key_lt(#[trigger] r[i].0, #[trigger] r[j].0) by {
            assert(r[i].0 == s[i].0);
            assert(r[j].0 == s[j].0);
        }
        assert forall|lo: Seq<char>| all_above(s, lo) && key_lt(lo, k) implies #[trigger] all_above(r, lo) by {
            assert forall|i: int| 0 <= i < r.len() implies key_lt(lo, #[trigger] r[i].0) by {
                assert(r[i].0 == s[i].0);
            }
        }
    } else if key_lt(k, s[0].0) {
        assert forall|i: int, j: int| 0 <= i < j < r.len() implies key_lt(#[trigger] r[i].0, #[trigger] r[j].0) by {
            if i == 0 {
                if j > 1 {
                    lemma_key_lt_transitive(k, s[0].0, s[j - 1].0);
                }
            } else {
                assert(r[i].0 == s[i - 1].0);
                assert(r[j].0 == s[j - 1].0);
            }
        }
        assert forall|lo: Seq<char>| all_above(s, lo) && key_lt(lo, k) implies #[trigger] all_above(r, lo) by {
            assert forall|i: int| 0 <= i < r.len() implies key_lt(lo, #[trigger] r[i].0) by {
                if i > 0 {
                    assert(r[i].0 == s[i - 1].0);
                }
            }
        }
    } else {
        lemma_key_lt_total(k, s[0].0);
        let rest = s.drop_first();
        assert(keys_sorted(rest)) by {
            assert forall|i: int, j: int| 0 <= i < j < rest.len() implies key_lt(#[trigger] rest[i].0, #[trigger] rest[j].0) by {
                assert(rest[i] == s[i + 1]);
                assert(rest[j] == s[j + 1]);
            }
        }
        lemma_assoc_put_sorted(rest, k, v);
        let pr = assoc_put(rest, k, v);
        assert(all_above(rest, s[0].0)) by {
            assert forall|i: int| 0 <= i < rest.len() implies key_lt(s[0].0, #[trigger] rest[i].0) by {
                assert(rest[i] == s[i + 1]);
            }
        }
        assert(all_above(pr, s[0].0));
        assert(r =~= seq![s[0]] + pr);
        assert forall|i: int, j: int| 0 <= i < j < r.len() implies key_lt(#[trigger] r[i].0, #[trigger] r[j].0) by {
            if i == 0 {
                assert(r[j] == pr[j - 1]);
            } else {
                assert(r[i] == pr[i - 1]);
                assert(r[j] == pr[j - 1]);
            }
        }
        assert forall|lo: Seq<char>| all_above(s, lo) && key_lt(lo, k) implies #[trigger] all_above(r, lo) by {
            assert(all_above(rest, lo)) by {
                assert forall|i: int| 0 <= i < rest.len() implies key_lt(lo, #[trigger] rest[i].0) by {
                    assert(rest[i] == s[i + 1]);
                }
            }
            assert(all_above(pr, lo));
            assert forall|i: int| 0 <= i < r.len() implies key_lt(lo, #[trigger] r[i].0) by {
                if i > 0 {
                    assert(r[i] == pr[i - 1]);
                }
            }
        }
    }
}

/// Appending a value under a key keeps a sorted map sorted, and keeps a
/// lower bound that the key respects.
pub proof fn lemma_multi_push_sorted(s: Seq<(Seq<char>, Seq<Seq<char>>)>, k: Seq<char>, v: Seq<char>)
    requires
        keys_sorted(s),
    ensures
        keys_sorted(multi_push(s, k, v)),
        forall|lo: Seq<char>| all_above(s, lo) && key_lt(lo, k) ==> #[trigger] all_above(multi_push(s, k, v), lo),
    decreases s.len(),
{
    let r = multi_push(s, k, v);
    if s.len() == 0 {
    } else if s[0].0 == k {
        assert forall|i: int, j: int| 0 <= i < j < r.len() implies key_lt(#[trigger] r[i].0, #[trigger] r[j].0) by {
            assert(r[i].0 == s[i].0);
            assert(r[j].0 == s[j].0);
        }
        assert forall|lo: Seq<char>| all_above(s, lo) && key_lt(lo, k) implies #[trigger] all_above(r, lo) by {
            assert forall|i: int| 0 <= i < r.len() implies key_lt(lo, #[trigger] r[i].0) by {
                assert(r[i].0 == s[i].0);
            }
        }
    } else if key_lt(k, s[0].0) {
        assert forall|i: int, j: int| 0 <= i < j < r.len() implies key_lt(#[trigger] r[i].0, #[trigger] r[j].0) by {
            if i == 0 {
                if j > 1 {
                    lemma_key_lt_transitive(k, s[0].0, s[j - 1].0);
                }
            } else {
                assert(r[i].0 == s[i - 1].0);
                assert(r[j].0 == s[j - 1].0);
            }
        }
        assert forall|lo: Seq<char>| all_above(s, lo) && key_lt(lo, k) implies #[trigger] all_above(r, lo) by {
            assert forall|i: int| 0 <= i < r.len() implies key_lt(lo, #[trigger] r[i].0) by {
                if i > 0 {
                    assert(r[i].0 == s[i - 1].0);
                }
            }
        }
    } else {
        lemma_key_lt_total(k, s[0].0);
        let rest = s.drop_first();
        assert(keys_sorted(rest)) by {
            assert forall|i: int, j: int| 0 <= i < j < rest.len() implies key_lt(#[trigger] rest[i].0, #[trigger] rest[j].0) by {
                assert(rest[i] == s[i + 1]);
                assert(rest[j] == s[j + 1]);
            }
        }
        lemma_multi_push_sorted(rest, k, v);
        let pr = multi_push(rest, k, v);
        assert(all_above(rest, s[0].0)) by {
            assert forall|i: int| 0 <= i < rest.len() implies key_lt(s[0].0, #[trigger] rest[i].0) by {
                assert(rest[i] == s[i + 1]);
            }
        }
        assert(all_above(pr, s[0].0));
        assert(r =~= seq![s[0]] + pr);
        assert forall|i: int, j: int| 0 <= i < j < r.len() implies key_lt(#[trigger] r[i].0, #[trigger] r[j].0) by {
            if i == 0 {
                assert(r[j] == pr[j - 1]);
            } else {
                assert(r[i] == pr[i - 1]);
                assert(r[j] == pr[j - 1]);
            }
        }
        assert forall|lo: Seq<char>| all_above(s, lo) && key_lt(lo, k) implies #[trigger] all_above(r, lo) by {
            assert(all_above(rest, lo)) by {
                assert forall|i: int| 0 <= i < rest.len() implies key_lt(lo, #[trigger] rest[i].0) by {
                    assert(rest[i] == s[i + 1]);
                }
            }
            assert(all_above(pr, lo));
            assert forall|i: int| 0 <= i < r.len() implies key_lt(lo, #[trigger] r[i].0) by {
                if i > 0 {
                    assert(r[i] == pr[i - 1]);
                }
            }
        }
    }
}

/// Removing a key keeps a sorted map sorted and keeps its lower bounds.
pub proof fn lemma_assoc_remove_sorted<V>(s: Seq<(Seq<char>, V)>, k: Seq<char>)
    requires
        keys_sorted(s),
    ensures
        keys_sorted(assoc_remove(s, k)),
        forall|lo: Seq<char>| all_above(s, lo) ==> #[trigger] all_above(assoc_remove(s, k), lo),
    decreases s.len(),
{
    let r = assoc_remove(s, k);
    if s.len() == 0 {
    } else if s[0].0 == k {
        assert forall|i: int, j: int| 0 <= i < j < r.len() implies key_lt(#[trigger] r[i].0, #[trigger] r[j].0) by {
            assert(r[i] == s[i + 1]);
            assert(r[j] == s[j + 1]);
        }
        assert forall|lo: Seq<char>| all_above(s, lo) implies #[trigger] all_above(r, lo) by {
            assert forall|i: int| 0 <= i < r.len() implies key_lt(lo, #[trigger] r[i].0) by {
                assert(r[i] == s[i + 1]);
            }
        }
    } else {
        let rest = s.drop_first();
        assert(keys_sorted(rest)) by {
            assert forall|i: int, j: int| 0 <= i < j < rest.len() implies key_lt(#[trigger] rest[i].0, #[trigger] rest[j].0) by {
                assert(rest[i] == s[i + 1]);
                assert(rest[j] == s[j + 1]);
            }
        }
        lemma_assoc_remove_sorted(rest, k);
        let pr = assoc_remove(rest, k);
        assert(all_above(rest, s[0].0)) by {
            assert forall|i: int| 0 <= i < rest.len() implies key_lt(s[0].0, #[trigger] rest[i].0) by {
                assert(rest[i] == s[i + 1]);
            }
        }
        assert(all_above(pr, s[0].0));
        assert(r =~= seq![s[0]] + pr);
        assert forall|i: int, j: int| 0 <= i < j < r.len() implies key_lt(#[trigger] r[i].0, #[trigger] r[j].0) by {
            if i == 0 {
                assert(r[j] == pr[j - 1]);
            } else {
                assert(r[i] == pr[i - 1]);
                assert(r[j] == pr[j - 1]);
            }
        }
        assert forall|lo: Seq<char>| all_above(s, lo) implies #[trigger] all_above(r, lo) by {
            assert(all_above(rest, lo)) by {
                assert forall|i: int| 0 <= i < rest.len() implies key_lt(lo, #[trigger] rest[i].0) by {
                    assert(rest[i] == s[i + 1]);
                }
            }
            assert(all_above(pr, lo));
            assert forall|i: int| 0 <= i < r.len() implies key_lt(lo, #[trigger] r[i].0) by {
                if i > 0 {
                    assert(r[i] == pr[i - 1]);
                }
            }
        }
    }
}


/// The first values of a sorted multi-valued map are sorted, with the same
/// lower bounds.
pub proof fn lemma_first_values_sorted(s: Seq<(Seq<char>, Seq<Seq<char>>)>)
    requires
        keys_sorted(s),
    ensures
        keys_sorted(first_values(s)),
        forall|lo: Seq<char>| all_above(s, lo) ==> #[trigger] all_above(first_values(s), lo),
    decreases s.len(),
{
    if s.len() > 0 {
        let rest = s.drop_first();
        assert(keys_sorted(rest)) by {
            assert forall|i: int, j: int| 0 <= i < j < rest.len() implies key_lt(#[trigger] rest[i].0, #[trigger] rest[j].0) by {
                assert(rest[i] == s[i + 1]);
                assert(rest[j] == s[j + 1]);
            }
        }
        lemma_first_values_sorted(rest);
        let fr = first_values(rest);
        assert(all_above(rest, s[0].0)) by {
            assert forall|i: int| 0 <= i < rest.len() implies key_lt(s[0].0, #[trigger] rest[i].0) by {
                assert(rest[i] == s[i + 1]);
            }
        }
        assert(all_above(fr, s[0].0));
        let r = first_values(s);
        if s[0].1.len() > 0 {
            assert forall|i: int, j: int| 0 <= i < j < r.len() implies key_lt(#[trigger] r[i].0, #[trigger] r[j].0) by {
                if i == 0 {
                    assert(r[j] == fr[j - 1]);
                } else {
                    assert(r[i] == fr[i - 1]);
                    assert(r[j] == fr[j - 1]);
                }
            }
        }
        assert forall|lo: Seq<char>| all_above(s, lo) implies #[trigger] all_above(r, lo) by {
            assert(all_above(rest, lo)) by {
                assert forall|i: int| 0 <= i < rest.len() implies key_lt(lo, #[trigger] rest[i].0) by {
                    assert(rest[i] == s[i + 1]);
                }
            }
            assert(all_above(fr, lo));
            if s[0].1.len() > 0 {
                assert forall|i: int| 0 <= i < r.len() implies key_lt(lo, #[trigger] r[i].0) by {
                    if i > 0 {
                        assert(r[i] == fr[i - 1]);
                    }
                }
            }
        }
    }
}


impl StrMap {
    /// Removes `key`, if present.
    pub fn remove(&mut self, key: &str)
        ensures
            final(self)@ == assoc_remove(old(self)@, key@),
    {
        proof {
            use_type_invariant(&*self);
            lemma_assoc_remove_sorted(self@, key@);
        }
        let mut entries: Vec<(String, String)> = Vec::new();
        std::mem::swap(&mut entries, &mut self.entries);
        remove_entry(&mut entries, key);
        self.entries = entries;
    }
}

impl QueryMap {
    /// An empty map.
    pub fn new() -> (m: QueryMap)
        ensures
            m@ == Seq::<(Seq<char>, Seq<Seq<char>>)>::empty(),
    {
        QueryMap { entries: Vec::new() }
    }

    /// Number of keys.
    pub fn len(&self) -> (n: usize)
        ensures
            n == self@.len(),
    {
        self.entries.len()
    }

    /// Whether the map has no key.
    pub fn is_empty(&self) -> (b: bool)
        ensures
            b == (self@.len() == 0),
    {
        self.entries.len() == 0
    }

    /// The key of the `i`-th entry in key order.
    pub fn key_at(&self, i: usize) -> (k: &String)
        requires
            i < self@.len(),
        ensures
            k@ == self@[i as int].0,
    {
        &self.entries[i].0
    }

    /// The values of the `i`-th entry in key order.
    pub fn values_at(&self, i: usize) -> (v: &Vec<String>)
        requires
            i < self@.len(),
        ensures
            strings_view(v@) == self@[i as int].1,
    {
        &self.entries[i].1
    }

    /// The values stored under `key`.
    pub fn get(&self, key: &str) -> (r: Option<&Vec<String>>)
        ensures
            (match r { Some(v) => Some(strings_view(v@)), None => None }) == assoc_get(self@, key@),
    {
        let n = self.entries.len();
        let mut i: usize = 0;
        assert(self@.skip(0) =~= self@);
        while i < n
            invariant
                n == self@.len(),
                i <= n,
                assoc_get(self@, key@) == assoc_get(self@.skip(i as int), key@),
            decreases n - i,
        {
            assert(self@.skip(i as int).drop_first() =~= self@.skip(i + 1));
            assert(self@.skip(i as int)[0] == self@[i as int]);
            if compare_keys(self.entries[i].0.as_str(), key) == KeyOrder::Equal {
                return Some(&self.entries[i].1);
            }
            i = i + 1;
        }
        None
    }

    /// Sets the values of `key`, replacing any previous ones.
    pub fn put(&mut self, key: String, values: Vec<String>)
        ensures
            final(self)@ == assoc_put(old(self)@, key@, strings_view(values@)),
    {
        proof {
            use_type_invariant(&*self);
            lemma_assoc_put_sorted(self@, key@, strings_view(values@));
        }
        let mut entries: Vec<(String, Vec<String>)> = Vec::new();
        std::mem::swap(&mut entries, &mut self.entries);
        put_entry(&mut entries, key, values);
        self.entries = entries;
    }

    /// Appends `value` to the values of `key`, creating the key if missing.
    pub fn push_value(&mut self, key: String, value: String)
        ensures
            final(self)@ == multi_push(old(self)@, key@, value@),
    {
        proof {
            use_type_invariant(&*self);
            lemma_multi_push_sorted(self@, key@, value@);
        }
        let mut entries: Vec<(String, Vec<String>)> = Vec::new();
        std::mem::swap(&mut entries, &mut self.entries);
        push_entry_value(&mut entries, key, value);
        self.entries = entries;
    }

    /// Removes `key`, if present.
    pub fn remove(&mut self, key: &str)
        ensures
            final(self)@ == assoc_remove(old(self)@, key@),
    {
        proof {
            use_type_invariant(&*self);
            lemma_assoc_remove_sorted(self@, key@);
        }
        let mut entries: Vec<(String, Vec<String>)> = Vec::new();
        std::mem::swap(&mut entries, &mut self.entries);
        remove_query_entry(&mut entries, key);
        self.entries = entries;
    }

    /// The first value of each key, as a single-valued map.
    pub fn first_values(&self) -> (r: StrMap)
        ensures
            r@ == first_values(self@),
    {
        proof {
            use_type_invariant(self);
            lemma_first_values_sorted(self@);
        }
        let n = self.entries.len();
        let mut entries: Vec<(String, String)> = Vec::new();
        let mut i: usize = 0;
        let ghost m = self@;
        assert(m.take(0) =~= Seq::<(Seq<char>, Seq<Seq<char>>)>::empty());
        while i < n
            invariant
                n == m.len(),
                m == self@,
                i <= n,
                entries@.map_values(|e: (String, String)| (e.0@, e.1@)) =~= first_values(m.take(i as int)),
            decreases n - i,
        {
            proof {
                lemma_first_values_push(m.take(i as int), m[i as int]);
                assert(m.take(i + 1) =~= m.take(i as int).push(m[i as int]));
            }
            if self.entries[i].1.len() > 0 {
                let k = self.entries[i].0.clone();
                let v = self.entries[i].1[0].clone();
                let ghost before = entries@.map_values(|e: (String, String)| (e.0@, e.1@));
                entries.push((k, v));
                assert(entries@.map_values(|e: (String, String)| (e.0@, e.1@)) =~= before.push((k@, v@)));
            }
            i = i + 1;
        }
        assert(m.take(n as int) =~= m);
        StrMap { entries }
    }

    /// A copy with the same entries.
    pub fn copy(&self) -> (r: QueryMap)
        ensures
            r@ == self@,
    {
        proof { use_type_invariant(self); }
        let mut entries: Vec<(String, Vec<String>)> = Vec::new();
        let mut i: usize = 0;
        while i < self.entries.len()
            invariant
                i <= self@.len(),
                entries@.map_values(|e: (String, Vec<String>)| (e.0@, strings_view(e.1@))) =~= self@.take(i as int),
            decreases self@.len() - i,
        {
            let k = self.entries[i].0.clone();
            let v = copy_strings(&self.entries[i].1);
            entries.push((k, v));
            assert(self@.take(i + 1) =~= self@.take(i as int).push(self@[i as int]));
            i = i + 1;
        }
        assert(self@.take(self@.len() as int) =~= self@);
        QueryMap { entries }
    }
}


pub proof fn lemma_first_values_push(s: Seq<(Seq<char>, Seq<Seq<char>>)>, e: (Seq<char>, Seq<Seq<char>>))
    ensures
        first_values(s.push(e)) == first_values(s) + (if e.1.len() > 0 {
            seq![(e.0, e.1[0])]
        } else {
            Seq::empty()
        }),
    decreases s.len(),
{
    if s.len() == 0 {
        assert(s.push(e).drop_first() =~= Seq::<(Seq<char>, Seq<Seq<char>>)>::empty());
        assert(first_values(s.push(e).drop_first()) == Seq::<(Seq<char>, Seq<char>)>::empty());
        assert(s.push(e)[0] == e);
        assert(first_values(s.push(e)) =~= first_values(s) + (if e.1.len() > 0 {
            seq![(e.0, e.1[0])]
        } else {
            Seq::empty()
        }));
    } else {
        assert(s.push(e).drop_first() =~= s.drop_first().push(e));
        lemma_first_values_push(s.drop_first(), e);
        assert(s.push(e)[0] == s[0]);
        assert(first_values(s.push(e)) =~= first_values(s) + (if e.1.len() > 0 {
            seq![(e.0, e.1[0])]
        } else {
            Seq::empty()
        }));
    }
}

} // verus!
