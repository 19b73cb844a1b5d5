//! Secret key-value storage: the in-memory store used on platforms
//! without a system keychain.

use vstd::prelude::*;
use crate::maps::{StrMap, assoc_get, assoc_put, assoc_remove, keys_sorted,
    lemma_assoc_put_sorted, lemma_assoc_remove_sorted, lemma_key_lt_irreflexive, key_lt};

verus! {

/// The secrets of an in-memory store.
pub struct SecretStore {
    secrets: StrMap,
}

impl SecretStore {
    /// The stored `(key, secret)` pairs.
    pub closed spec fn contents(&self) -> Seq<(Seq<char>, Seq<char>)> {
        self.secrets@
    }

    /// An empty store.
    pub fn new() -> (s: SecretStore)
        ensures
            s.contents() == Seq::<(Seq<char>, Seq<char>)>::empty(),
            keys_sorted(s.contents()),
    {
        SecretStore { secrets: StrMap::new() }
    }
}

/// Stores `value` under `key`, replacing any previous secret.
pub fn set_secret(store: &mut SecretStore, key: &str, value: &str) -> (r: Result<(), String>)
    ensures
        r is Ok,
        final(store).contents() == assoc_put(old(store).contents(), key@, value@),
        keys_sorted(final(store).contents()),
        assoc_get(final(store).contents(), key@) == Some(value@),
        forall|other: Seq<char>| other != key@ ==>
            #[trigger] assoc_get(final(store).contents(), other) == assoc_get(old(store).contents(), other),
{
    proof {
        use_type_invariant(&store.secrets);
        lemma_assoc_put_sorted(store.contents(), key@, value@);
        law_get_after_set(store.contents(), key@, value@);
        assert forall|other: Seq<char>| other != key@ implies
            #[trigger] assoc_get(assoc_put(store.contents(), key@, value@), other) == assoc_get(store.contents(), other) by {
            law_set_keeps_other_keys(store.contents(), key@, value@, other);
        }
    }
    store.secrets.insert(key.to_owned(), value.to_owned());
    Ok(())
}

/// The secret stored under `key`, `None` when there is none.
pub fn get_secret(store: &SecretStore, key: &str) -> (r: Result<Option<String>, String>)
    ensures
        r matches Ok(v) && (match v { Some(s) => Some(s@), None => None }) == assoc_get(store.contents(), key@),
{
    match store.secrets.get(key) {
        Some(v) => Ok(Some(v.clone())),
        None => Ok(None),
    }
}

/// Deletes the secret stored under `key`; no-op when there is none.
pub fn delete_secret(store: &mut SecretStore, key: &str) -> (r: Result<(), String>)
    ensures
        r is Ok,
        final(store).contents() == assoc_remove(old(store).contents(), key@),
        keys_sorted(final(store).contents()),
        assoc_get(final(store).contents(), key@) is None,
{
    proof {
        use_type_invariant(&store.secrets);
        lemma_assoc_remove_sorted(store.contents(), key@);
        law_get_after_delete(store.contents(), key@);
    }
    store.secrets.remove(key);
    Ok(())
}

/// Reading a key right after storing a secret under it gives that secret.
pub proof fn law_get_after_set(s: Seq<(Seq<char>, Seq<char>)>, k: Seq<char>, v: Seq<char>)
    ensures
        assoc_get(assoc_put(s, k, v), k) == Some(v),
    decreases s.len(),
{
    if s.len() > 0 && s[0].0 != k && !key_lt(k, s[0].0) {
        law_get_after_set(s.drop_first(), k, v);
        assert((seq![s[0]] + assoc_put(s.drop_first(), k, v)).drop_first() =~= assoc_put(s.drop_first(), k, v));
    } else if s.len() > 0 && s[0].0 == k {
    } else {
    }
}

/// Storing under one key leaves the secrets of other keys as they were.
pub proof fn law_set_keeps_other_keys(s: Seq<(Seq<char>, Seq<char>)>, k: Seq<char>, v: Seq<char>, other: Seq<char>)
    requires
        keys_sorted(s),
        other != k,
    ensures
        assoc_get(assoc_put(s, k, v), other) == assoc_get(s, other),
    decreases s.len(),
{
    if s.len() == 0 {
        assert(seq![(k, v)].drop_first() =~= Seq::<(Seq<char>, Seq<char>)>::empty());
        assert(assoc_get(seq![(k, v)].drop_first(), other) is None);
        assert(assoc_put(s, k, v) == seq![(k, v)]);
    } else {
        let rest = s.drop_first();
        if s[0].0 == k {
            assert((seq![(k, v)] + rest).drop_first() =~= rest);
        } else if key_lt(k, s[0].0) {
            assert((seq![(k, v)] + s).drop_first() =~= s);
        } else {
            assert(keys_sorted(rest)) by {
                assert forall|i: int, j: int| 0 <= i < j < rest.len() implies key_lt(#[trigger] rest[i].0, #[trigger] rest[j].0) by {
                    assert(rest[i] == s[i + 1]);
                    assert(rest[j] == s[j + 1]);
                }
            }
            law_set_keeps_other_keys(rest, k, v, other);
            assert((seq![s[0]] + assoc_put(rest, k, v)).drop_first() =~= assoc_put(rest, k, v));
        }
    }
}

/// Reading a key right after deleting it gives nothing.
pub proof fn law_get_after_delete(s: Seq<(Seq<char>, Seq<char>)>, k: Seq<char>)
    requires
        keys_sorted(s),
    ensures
        assoc_get(assoc_remove(s, k), k) is None,
    decreases s.len(),
{
    if s.len() > 0 {
        let rest = s.drop_first();
        assert(keys_sorted(rest)) by {
            assert forall|i: int, j: int| 0 <= i < j < rest.len() implies key_lt(#[trigger] rest[i].0, #[trigger] rest[j].0) by {
                assert(rest[i] == s[i + 1]);
                assert(rest[j] == s[j + 1]);
            }
        }
        if s[0].0 == k {
            lemma_no_key_after_first(s, k);
        } else {
            law_get_after_delete(rest, k);
            assert((seq![s[0]] + assoc_remove(rest, k)).drop_first() =~= assoc_remove(rest, k));
        }
    }
}

/// In a sorted map the first key occurs nowhere else.
proof fn lemma_no_key_after_first(s: Seq<(Seq<char>, Seq<char>)>, k: Seq<char>)
    requires
        keys_sorted(s),
        s.len() > 0,
        s[0].0 == k,
    ensures
        assoc_get(s.drop_first(), k) is None,
{
    lemma_absent_when_all_above(s.drop_first(), k);
}

proof fn lemma_absent_when_all_above(s: Seq<(Seq<char>, Seq<char>)>, k: Seq<char>)
    requires
        forall|i: int| 0 <= i < s.len() ==> key_lt(k, #[trigger] s[i].0),
    ensures
        assoc_get(s, k) is None,
    decreases s.len(),
{
    if s.len() > 0 {
        lemma_key_lt_irreflexive(k);
        assert(key_lt(k, s[0].0));
        let rest = s.drop_first();
        assert forall|i: int| 0 <= i < rest.len() implies key_lt(k, #[trigger] rest[i].0) by {
            assert(rest[i] == s[i + 1]);
        }
        lemma_absent_when_all_above(rest, k);
    }
}

} // verus!
