//! The lock-free cuckoo hash map of `lockfree_cuckoohash`, as the library
//! uses it: string keys to string values (the key-value store) and string
//! keys to scores (the members of a sorted set).
//!
//! Each map is owned by one structure of the library and reached only
//! through the functions below, which take it by `&mut` whenever the crate's
//! method changes it, so its contents are a function of the map value.

use lockfree_cuckoohash::pin;
use lockfree_cuckoohash::LockFreeCuckooHash;
use std::hash::Hash;
use vstd::prelude::*;

verus! {

#[verifier::external_type_specification]
#[verifier::external_body]
#[verifier::reject_recursive_types(K)]
#[verifier::reject_recursive_types(V)]
pub struct ExLockFreeCuckooHash<K: Eq + Hash, V>(LockFreeCuckooHash<K, V>);

/// What a string-to-string cuckoo map holds.
pub uninterp spec fn text_map_contents(m: LockFreeCuckooHash<String, String>) -> Map<
    Seq<char>,
    Seq<char>,
>;

/// What a string-to-score cuckoo map holds.
pub uninterp spec fn score_map_contents(m: LockFreeCuckooHash<String, u32>) -> Map<Seq<char>, u32>;

/// `LockFreeCuckooHash::new`: a map that holds nothing.
#[verifier::external_body]
pub fn text_map_new() -> (m: LockFreeCuckooHash<String, String>)
    ensures
        text_map_contents(m).dom() == Set::<Seq<char>>::empty(),
{
    LockFreeCuckooHash::new()
}

/// `LockFreeCuckooHash::get` (under a fresh epoch guard), the value cloned:
/// the value stored under `key`, if any.
#[verifier::external_body]
pub fn text_map_get(m: &LockFreeCuckooHash<String, String>, key: &str) -> (r: Option<String>)
    ensures
        r is Some <==> text_map_contents(*m).contains_key(key@),
        r matches Some(v) ==> v@ == text_map_contents(*m)[key@],
{
    let guard = pin();
    m.get(key, &guard).cloned()
}

/// `LockFreeCuckooHash::insert`: stores `value` under `key`, replacing any
/// earlier value; returns whether the key was present before.
#[verifier::external_body]
pub fn text_map_insert(m: &mut LockFreeCuckooHash<String, String>, key: String, value: String) -> (existed: bool)
    ensures
        text_map_contents(*final(m)) == text_map_contents(*old(m)).insert(key@, value@),
        existed == text_map_contents(*old(m)).contains_key(key@),
{
    m.insert(key, value)
}

/// `LockFreeCuckooHash::remove`: removes `key`; returns whether it was
/// present.
#[verifier::external_body]
pub fn text_map_remove(m: &mut LockFreeCuckooHash<String, String>, key: &str) -> (existed: bool)
    ensures
        text_map_contents(*final(m)) == text_map_contents(*old(m)).remove(key@),
        existed == text_map_contents(*old(m)).contains_key(key@),
{
    m.remove(key)
}

/// `LockFreeCuckooHash::new`: a map that holds nothing.
#[verifier::external_body]
pub fn score_map_new() -> (m: LockFreeCuckooHash<String, u32>)
    ensures
        score_map_contents(m).dom() == Set::<Seq<char>>::empty(),
{
    LockFreeCuckooHash::new()
}

/// `LockFreeCuckooHash::get` (under a fresh epoch guard), the score copied:
/// the score stored under `key`, if any.
#[verifier::external_body]
pub fn score_map_get(m: &LockFreeCuckooHash<String, u32>, key: &str) -> (r: Option<u32>)
    ensures
        r is Some <==> score_map_contents(*m).contains_key(key@),
        r matches Some(s) ==> s == score_map_contents(*m)[key@],
{
    let guard = pin();
    m.get(key, &guard).copied()
}

/// `LockFreeCuckooHash::insert`: stores `score` under `key`, replacing any
/// earlier score; returns whether the key was present before.
#[verifier::external_body]
pub fn score_map_insert(m: &mut LockFreeCuckooHash<String, u32>, key: String, score: u32) -> (existed: bool)
    ensures
        score_map_contents(*final(m)) == score_map_contents(*old(m)).insert(key@, score),
        existed == score_map_contents(*old(m)).contains_key(key@),
{
    m.insert(key, score)
}

/// `LockFreeCuckooHash::remove_with_guard` (under a fresh epoch guard), the
/// old score copied: removes `key` and returns the score it had, if any.
#[verifier::external_body]
pub fn score_map_remove(m: &mut LockFreeCuckooHash<String, u32>, key: &str) -> (r: Option<u32>)
    ensures
        score_map_contents(*final(m)) == score_map_contents(*old(m)).remove(key@),
        r is Some <==> score_map_contents(*old(m)).contains_key(key@),
        r matches Some(s) ==> s == score_map_contents(*old(m))[key@],
{
    let guard = pin();
    m.remove_with_guard(key, &guard).copied()
}

} // verus!
