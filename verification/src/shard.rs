//! Hashing keys and spreading them over the nodes of a cluster.

use std::collections::hash_map::DefaultHasher;
use std::hash::BuildHasher;
use std::hash::BuildHasherDefault;
use crate::dto::InsrtRequest;
use crate::storage::dedup;
use crate::storage::distinct_keys;
use crate::storage::pairs_view;
use crate::zset::strings_view;
use vstd::prelude::*;

verus! {

/// The hash that std's `DefaultHasher` (created by `new`/`default`) gives a
/// string.
pub uninterp spec fn default_hash_of_str(key: Seq<char>) -> u64;

/// Hashes `key` with a `DefaultHasher` from `BuildHasherDefault`, through
/// std's `BuildHasher::hash_one`.
///
/// std documents that every `DefaultHasher` made by `new` or `default` is the
/// same hasher, so within one build the result is a function of the string
/// alone; that is all this contract claims (the algorithm itself is left
/// unspecified, and may differ between Rust releases).
#[verifier::external_body]
fn default_hash(key: &str) -> (h: u64)
    ensures
        h == default_hash_of_str(key@),
{
    BuildHasherDefault::<DefaultHasher>::default().hash_one(key)
}

/// The 64-bit hash of a key.
pub fn hash_key(key: &str) -> (h: u64)
    ensures
        h == default_hash_of_str(key@),
{
    default_hash(key)
}

/// The shard that a key belongs to among `count` nodes, as a spec.
pub open spec fn shard_of(key: Seq<char>, count: u64) -> usize {
    if count == 0 {
        0
    } else {
        (default_hash_of_str(key) % count) as usize
    }
}

/// The node that owns `key` among `count` nodes: 0 when there are none,
/// else the hash of the key modulo `count`.
pub fn get_shard(key: &str, count: u64) -> (s: usize)
    ensures
        s == shard_of(key@, count),
{
    if count == 0 {
        0
    } else {
        (hash_key(key) % count) as usize
    }
}

/// The shard of a key, as the handlers compare it with this node's index.
pub open spec fn node_of(key: Seq<char>, count: u64) -> u32 {
    shard_of(key, count) as u32
}

/// The pairs of `kvs` whose key belongs to node `s`, in order.
pub open spec fn pairs_of_node(kvs: Seq<(Seq<char>, Seq<char>)>, count: u64, s: u32) -> Seq<
    (Seq<char>, Seq<char>),
>
    decreases kvs.len(),
{
    if kvs.len() == 0 {
        Seq::empty()
    } else {
        let p = pairs_of_node(kvs.drop_last(), count, s);
        if node_of(kvs.last().0, count) == s {
            p.push(kvs.last())
        } else {
            p
        }
    }
}

/// The keys of `keys` that belong to node `s`, in order.
pub open spec fn keys_of_node(keys: Seq<Seq<char>>, count: u64, s: u32) -> Seq<Seq<char>>
    decreases keys.len(),
{
    if keys.len() == 0 {
        Seq::empty()
    } else {
        let p = keys_of_node(keys.drop_last(), count, s);
        if node_of(keys.last(), count) == s {
            p.push(keys.last())
        } else {
            p
        }
    }
}

/// A copy of a key-value pair.
fn copy_pair(kv: &InsrtRequest) -> (r: InsrtRequest)
    ensures
        r@ == kv@,
{
    InsrtRequest { key: kv.key.clone(), value: kv.value.clone() }
}

/// Splits a batch by owning node: the pairs this node (`me`) owns, in
/// order, and for every other node that owns some pair, the node and its
/// pairs in order. Each node has one group.
pub fn partition_by_shard(kvs: &Vec<InsrtRequest>, count: u64, me: u32) -> (r: (
    Vec<InsrtRequest>,
    Vec<(u32, Vec<InsrtRequest>)>,
))
    ensures
        pairs_view(r.0@) == pairs_of_node(pairs_view(kvs@), count, me),
        forall|g: int| #![trigger r.1@[g]] 0 <= g < r.1@.len() ==> {
            &&& r.1@[g].0 != me
            &&& pairs_view(r.1@[g].1@) == pairs_of_node(pairs_view(kvs@), count, r.1@[g].0)
            &&& r.1@[g].1@.len() > 0
        },
        forall|g: int, h: int| 0 <= g < h < r.1@.len() ==> #[trigger] r.1@[g].0 != #[trigger] r.1@[h].0,
        forall|j: int| #![trigger kvs@[j]] 0 <= j < kvs@.len() && node_of(kvs@[j].key@, count) != me
            ==> exists|g: int| 0 <= g < r.1@.len() && r.1@[g].0 == node_of(kvs@[j].key@, count),
{
    let mut mine: Vec<InsrtRequest> = Vec::new();
    let mut groups: Vec<(u32, Vec<InsrtRequest>)> = Vec::new();
    let mut i: usize = 0;
    while i < kvs.len()
        invariant
            i <= kvs.len(),
            pairs_view(mine@) == pairs_of_node(pairs_view(kvs@).take(i as int), count, me),
            forall|g: int| #![trigger groups@[g]] 0 <= g < groups@.len() ==> {
                &&& groups@[g].0 != me
                &&& pairs_view(groups@[g].1@) == pairs_of_node(pairs_view(kvs@).take(i as int), count, groups@[g].0)
                &&& groups@[g].1@.len() > 0
            },
            forall|g: int, h: int| 0 <= g < h < groups@.len() ==> #[trigger] groups@[g].0 != #[trigger] groups@[h].0,
            forall|j: int| #![trigger kvs@[j]] 0 <= j < i && node_of(kvs@[j].key@, count) != me
                ==> exists|g: int| 0 <= g < groups@.len() && groups@[g].0 == node_of(kvs@[j].key@, count),
        decreases kvs.len() - i,
    {
        let ghost p = pairs_view(kvs@);
        assert(p.take(i + 1).drop_last() =~= p.take(i as int));
        assert(p.take(i + 1).last() == kvs@[i as int]@);
        let s = get_shard(kvs[i].key.as_str(), count) as u32;
        let kv = copy_pair(&kvs[i]);
        if s == me {
            let ghost before = mine@;
            mine.push(kv);
            assert(pairs_view(mine@) =~= pairs_view(before).push(kvs@[i as int]@));
            assert forall|g: int| #![trigger groups@[g]] 0 <= g < groups@.len() implies
                pairs_view(groups@[g].1@) == pairs_of_node(p.take(i + 1), count, groups@[g].0) by {
            }
        } else {
            let found = find_group(&groups, s);
            let ghost old_groups = groups@;
            if let Some(g) = found {
                let ghost before = groups@[g as int].1@;
                groups[g].1.push(kv);
                assert(pairs_view(groups@[g as int].1@) =~= pairs_view(before).push(kvs@[i as int]@));
                assert forall|j: int| #![trigger kvs@[j]] 0 <= j < i + 1 && node_of(kvs@[j].key@, count) != me
                    implies exists|h: int| 0 <= h < groups@.len() && groups@[h].0 == node_of(kvs@[j].key@, count) by {
                    if j < i {
                        let h = choose|h: int| 0 <= h < old_groups.len() && old_groups[h].0 == node_of(kvs@[j].key@, count);
                        assert(groups@[h].0 == old_groups[h].0);
                    } else {
                        assert(groups@[g as int].0 == s);
                    }
                }
            } else {
                let mut items: Vec<InsrtRequest> = Vec::new();
                items.push(kv);
                groups.push((s, items));
                assert(pairs_view(groups@.last().1@) =~= seq![kvs@[i as int]@]);
                assert(pairs_of_node(p.take(i as int), count, s) =~= Seq::empty()) by {
                    assert forall|j: int| 0 <= j < p.take(i as int).len() implies node_of(p.take(i as int)[j].0, count) != s by {
                        assert(p.take(i as int)[j] == kvs@[j]@);
                        assert(kvs@[j] == kvs@[j]);
                        if node_of(kvs@[j].key@, count) == s {
                            let h = choose|h: int| 0 <= h < old_groups.len() && old_groups[h].0 == node_of(kvs@[j].key@, count);
                        }
                    }
                    lemma_no_pairs_of_node(p.take(i as int), count, s);
                }
                assert forall|j: int| #![trigger kvs@[j]] 0 <= j < i + 1 && node_of(kvs@[j].key@, count) != me
                    implies exists|h: int| 0 <= h < groups@.len() && groups@[h].0 == node_of(kvs@[j].key@, count) by {
                    if j < i {
                        let h = choose|h: int| 0 <= h < old_groups.len() && old_groups[h].0 == node_of(kvs@[j].key@, count);
                        assert(groups@[h].0 == old_groups[h].0);
                    } else {
                        assert(groups@[old_groups.len() as int].0 == s);
                    }
                }
            }
            assert(pairs_of_node(p.take(i as int), count, me) == pairs_of_node(p.take(i + 1), count, me));
        }
        i = i + 1;
    }
    assert(pairs_view(kvs@).take(kvs@.len() as int) =~= pairs_view(kvs@));
    assert forall|j: int| #![trigger kvs@[j]] 0 <= j < kvs@.len() && node_of(kvs@[j].key@, count) != me
        implies exists|g: int| 0 <= g < groups@.len() && groups@[g].0 == node_of(kvs@[j].key@, count) by {
        assert(j < i);
    }
    let r = (mine, groups);
    assert forall|j: int| #![trigger kvs@[j]] 0 <= j < kvs@.len() && node_of(kvs@[j].key@, count) != me
        implies exists|g: int| 0 <= g < r.1@.len() && r.1@[g].0 == node_of(kvs@[j].key@, count) by {
        let g = choose|g: int| 0 <= g < groups@.len() && groups@[g].0 == node_of(kvs@[j].key@, count);
        assert(r.1@[g] == groups@[g]);
    }
    r
}

/// Splits the distinct keys of a `LIST` (in order of first occurrence) by
/// owning node: the keys this node (`me`) owns, in order, and for every
/// other node that owns some key, the node and its keys in order. Each node
/// has one group.
pub fn partition_keys_by_shard(all_keys: &Vec<String>, count: u64, me: u32) -> (r: (
    Vec<String>,
    Vec<(u32, Vec<String>)>,
))
    ensures
        strings_view(r.0@) == keys_of_node(dedup(strings_view(all_keys@)), count, me),
        forall|g: int| #![trigger r.1@[g]] 0 <= g < r.1@.len() ==> {
            &&& r.1@[g].0 != me
            &&& strings_view(r.1@[g].1@) == keys_of_node(dedup(strings_view(all_keys@)), count, r.1@[g].0)
            &&& r.1@[g].1@.len() > 0
        },
        forall|g: int, h: int| 0 <= g < h < r.1@.len() ==> #[trigger] r.1@[g].0 != #[trigger] r.1@[h].0,
        forall|j: int| #![trigger dedup(strings_view(all_keys@))[j]] 0 <= j < dedup(strings_view(all_keys@)).len()
            && node_of(dedup(strings_view(all_keys@))[j], count) != me
            ==> exists|g: int| 0 <= g < r.1@.len() && r.1@[g].0 == node_of(dedup(strings_view(all_keys@))[j], count),
{
    let kvs = distinct_keys(all_keys);
    let mut mine: Vec<String> = Vec::new();
    let mut groups: Vec<(u32, Vec<String>)> = Vec::new();
    let mut i: usize = 0;
    while i < kvs.len()
        invariant
            i <= kvs.len(),
            strings_view(mine@) == keys_of_node(dedup(strings_view(all_keys@)).take(i as int), count, me),
            forall|g: int| #![trigger groups@[g]] 0 <= g < groups@.len() ==> {
                &&& groups@[g].0 != me
                &&& strings_view(groups@[g].1@) == keys_of_node(dedup(strings_view(all_keys@)).take(i as int), count, groups@[g].0)
                &&& groups@[g].1@.len() > 0
            },
            forall|g: int, h: int| 0 <= g < h < groups@.len() ==> #[trigger] groups@[g].0 != #[trigger] groups@[h].0,
            forall|j: int| #![trigger kvs@[j]] 0 <= j < i && node_of(kvs@[j]@, count) != me
                ==> exists|g: int| 0 <= g < groups@.len() && groups@[g].0 == node_of(kvs@[j]@, count),
            strings_view(kvs@) == dedup(strings_view(all_keys@)),
        decreases kvs.len() - i,
    {
        let ghost p = dedup(strings_view(all_keys@));
        assert(p.take(i + 1).drop_last() =~= p.take(i as int));
        assert(p.take(i + 1).last() == kvs@[i as int]@);
        let s = get_shard(kvs[i].as_str(), count) as u32;
        let kv = kvs[i].clone();
        if s == me {
            let ghost before = mine@;
            mine.push(kv);
            assert(strings_view(mine@) =~= strings_view(before).push(kvs@[i as int]@));
            assert forall|g: int| #![trigger groups@[g]] 0 <= g < groups@.len() implies
                strings_view(groups@[g].1@) == keys_of_node(p.take(i + 1), count, groups@[g].0) by {
            }
        } else {
            let found = find_group(&groups, s);
            let ghost old_groups = groups@;
            if let Some(g) = found {
                let ghost before = groups@[g as int].1@;
                groups[g].1.push(kv);
                assert(strings_view(groups@[g as int].1@) =~= strings_view(before).push(kvs@[i as int]@));
                assert forall|j: int| #![trigger kvs@[j]] 0 <= j < i + 1 && node_of(kvs@[j]@, count) != me
                    implies exists|h: int| 0 <= h < groups@.len() && groups@[h].0 == node_of(kvs@[j]@, count) by {
                    if j < i {
                        let h = choose|h: int| 0 <= h < old_groups.len() && old_groups[h].0 == node_of(kvs@[j]@, count);
                        assert(groups@[h].0 == old_groups[h].0);
                    } else {
                        assert(groups@[g as int].0 == s);
                    }
                }
            } else {
                let mut items: Vec<String> = Vec::new();
                items.push(kv);
                groups.push((s, items));
                assert(strings_view(groups@.last().1@) =~= seq![kvs@[i as int]@]);
                assert(keys_of_node(p.take(i as int), count, s) =~= Seq::empty()) by {
                    assert forall|j: int| 0 <= j < p.take(i as int).len() implies node_of(p.take(i as int)[j], count) != s by {
                        assert(p.take(i as int)[j] == kvs@[j]@);
                        assert(kvs@[j] == kvs@[j]);
                        if node_of(kvs@[j]@, count) == s {
                            let h = choose|h: int| 0 <= h < old_groups.len() && old_groups[h].0 == node_of(kvs@[j]@, count);
                        }
                    }
                    lemma_no_keys_of_node(p.take(i as int), count, s);
                }
                assert forall|j: int| #![trigger kvs@[j]] 0 <= j < i + 1 && node_of(kvs@[j]@, count) != me
                    implies exists|h: int| 0 <= h < groups@.len() && groups@[h].0 == node_of(kvs@[j]@, count) by {
                    if j < i {
                        let h = choose|h: int| 0 <= h < old_groups.len() && old_groups[h].0 == node_of(kvs@[j]@, count);
                        assert(groups@[h].0 == old_groups[h].0);
                    } else {
                        assert(groups@[old_groups.len() as int].0 == s);
                    }
                }
            }
            assert(keys_of_node(p.take(i as int), count, me) == keys_of_node(p.take(i + 1), count, me));
        }
        i = i + 1;
    }
    assert(dedup(strings_view(all_keys@)).take(kvs@.len() as int) =~= dedup(strings_view(all_keys@)));
    assert forall|j: int| #![trigger kvs@[j]] 0 <= j < kvs@.len() && node_of(kvs@[j]@, count) != me
        implies exists|g: int| 0 <= g < groups@.len() && groups@[g].0 == node_of(kvs@[j]@, count) by {
        assert(j < i);
    }
    let r = (mine, groups);
    assert forall|j: int| #![trigger dedup(strings_view(all_keys@))[j]] 0 <= j < dedup(strings_view(all_keys@)).len()
        && node_of(dedup(strings_view(all_keys@))[j], count) != me
        implies exists|g: int| 0 <= g < r.1@.len() && r.1@[g].0 == node_of(dedup(strings_view(all_keys@))[j], count) by {
        assert(dedup(strings_view(all_keys@))[j] == kvs@[j]@);
        let g = choose|g: int| 0 <= g < groups@.len() && groups@[g].0 == node_of(kvs@[j]@, count);
        assert(r.1@[g] == groups@[g]);
    }
    r
}

/// The position of the group of node `s`, if there is one.
fn find_group<T>(groups: &Vec<(u32, Vec<T>)>, s: u32) -> (r: Option<usize>)
    ensures
        r matches Some(g) ==> g < groups@.len() && groups@[g as int].0 == s,
        r is None ==> forall|h: int| 0 <= h < groups@.len() ==> groups@[h].0 != s,
{
    let mut g: usize = 0;
    while g < groups.len()
        invariant
            g <= groups.len(),
            forall|h: int| 0 <= h < g ==> groups@[h].0 != s,
        decreases groups.len() - g,
    {
        if groups[g].0 == s {
            return Some(g);
        }
        g = g + 1;
    }
    None
}

/// When no pair belongs to node `s`, node `s` gets no pairs.
proof fn lemma_no_pairs_of_node(kvs: Seq<(Seq<char>, Seq<char>)>, count: u64, s: u32)
    requires
        forall|j: int| 0 <= j < kvs.len() ==> node_of(kvs[j].0, count) != s,
    ensures
        pairs_of_node(kvs, count, s) == Seq::<(Seq<char>, Seq<char>)>::empty(),
    decreases kvs.len(),
{
    if kvs.len() > 0 {
        lemma_no_pairs_of_node(kvs.drop_last(), count, s);
        assert(node_of(kvs[kvs.len() - 1].0, count) != s);
    }
}

/// When no key belongs to node `s`, node `s` gets no keys.
proof fn lemma_no_keys_of_node(keys: Seq<Seq<char>>, count: u64, s: u32)
    requires
        forall|j: int| 0 <= j < keys.len() ==> node_of(keys[j], count) != s,
    ensures
        keys_of_node(keys, count, s) == Seq::<Seq<char>>::empty(),
    decreases keys.len(),
{
    if keys.len() > 0 {
        lemma_no_keys_of_node(keys.drop_last(), count, s);
        assert(node_of(keys[keys.len() - 1], count) != s);
    }
}

} // verus!
