//! What holds of the store across its operations.

use crate::shard::keys_of_node;
use crate::shard::node_of;
use crate::shard::pairs_of_node;
use crate::shard::shard_of;
use crate::storage::dedup;
use crate::storage::found;
use crate::server::serves;
use crate::storage::StoreModel;
use crate::storage::LOAD_STATE_INIT;
use crate::storage::LOAD_STATE_LOADING;
use crate::codec::is_row_key;
use crate::codec::lemma_row_key_roundtrip;
use crate::codec::lemma_score_roundtrip;
use crate::codec::split_row_key;
use crate::codec::zset_row_key;
use crate::dto::InsrtRequest;
use crate::handler::answered_pairs;
use crate::storage::pairs_view;
use crate::zset::ZSetModel;
use vstd::utf8::decode_utf8;
use vstd::utf8::encode_utf8;
use vstd::utf8::valid_utf8;
use crate::zset_table::set_or_empty;
use vstd::prelude::*;

verus! {

/// A query after `ADD key value` finds `value` (on the node that served the
/// `ADD`, which still serves the key); the key then holds no sorted set (a
/// range on it finds none) and `ZADD` on it is refused.
pub proof fn lemma_query_after_add(m: StoreModel, k: Seq<char>, v: Seq<char>, min: u32, max: u32)
    ensures
        serves(m.insert_kv(k, v), k) == serves(m, k),
        m.insert_kv(k, v).kv.contains_key(k),
        m.insert_kv(k, v).kv[k] == v,
        m.insert_kv(k, v).zrange(k, min, max) is None,
        m.insert_kv(k, v).zadd_refused(k),
{
}

/// After `DEL key` the key holds neither a value nor a sorted set, and
/// every other key holds what it held.
pub proof fn lemma_del_clears(m: StoreModel, k: Seq<char>, other: Seq<char>, min: u32, max: u32)
    requires
        other != k,
    ensures
        !m.del(k).kv.contains_key(k),
        m.del(k).zrange(k, min, max) is None,
        !m.del(k).zadd_refused(k),
        m.del(k).kv.contains_key(other) == m.kv.contains_key(other),
        m.kv.contains_key(other) ==> m.del(k).kv[other] == m.kv[other],
        m.del(k).zrange(other, min, max) == m.zrange(other, min, max),
{
}

/// Every operation keeps the store well formed: no key holds both a value
/// and a sorted set, and every sorted set stays well formed.
pub proof fn lemma_ops_keep_wf(m: StoreModel, k: Seq<char>, v: Seq<char>, s: u32)
    requires
        m.wf(),
    ensures
        m.insert_kv(k, v).wf(),
        m.del(k).wf(),
        m.remove_kv(k).wf(),
        !m.zadd_refused(k) ==> m.zadd(k, v, s).wf(),
        m.zrmv(k, v).wf(),
{
    if !m.zadd_refused(k) {
        if m.zsets.contains_key(k) {
            m.zsets[k].lemma_add_wf(v, s);
        } else {
            ZSetModel::empty().lemma_add_wf(v, s);
        }
    }
    if m.zsets.contains_key(k) {
        m.zsets[k].lemma_remove_wf(v);
    }
}

/// After an accepted `ZADD key score member`, a range on `key` finds a set,
/// and it holds the member (once, with the new score) exactly when the
/// score lies in the range.
pub proof fn lemma_zadd_then_zrange(m: StoreModel, k: Seq<char>, v: Seq<char>, s: u32, min: u32, max: u32)
    requires
        m.wf(),
        !m.zadd_refused(k),
    ensures
        m.zadd(k, v, s).zrange(k, min, max) is Some,
        ({
            let r = m.zadd(k, v, s).zrange(k, min, max)->Some_0;
            &&& (exists|i: int| 0 <= i < r.len() && r[i] == (s, v)) <==> (min <= s <= max)
            &&& forall|i: int| 0 <= i < r.len() && #[trigger] r[i].1 == v ==> r[i].0 == s
        }),
{
    let z = set_or_empty(m.zsets, k);
    if m.zsets.contains_key(k) {
        assert(z.wf());
    } else {
        assert(z.wf());
    }
    z.lemma_add_wf(v, s);
    let n = z.add(v, s);
    assert(n.scores.contains_key(v) && n.scores[v] == s);
    n.lemma_range_contents(min, max);
    let r = n.range(min, max);
    assert(m.zadd(k, v, s).zrange(k, min, max) == Some(r));
    if min <= s <= max {
        let i = choose|i: int| 0 <= i < r.len() && r[i].1 == v;
        assert(r[i] == (s, v));
    }
    if exists|i: int| 0 <= i < r.len() && r[i] == (s, v) {
        let i = choose|i: int| 0 <= i < r.len() && r[i] == (s, v);
        assert(min <= r[i].0 <= max);
    }
    assert forall|i: int| 0 <= i < r.len() && #[trigger] r[i].1 == v implies r[i].0 == s by {
        assert(n.scores[r[i].1] == r[i].0);
    }
    assert(m.zadd(k, v, s).zrange(k, min, max)->Some_0 == r);
    assert((exists|i: int| 0 <= i < r.len() && r[i] == (s, v)) <==> (min <= s <= max));
}

/// After `ZRMV key member` the set `key` is still there (possibly empty)
/// and a range on it never holds the member.
pub proof fn lemma_zrmv_then_zrange(m: StoreModel, k: Seq<char>, v: Seq<char>, min: u32, max: u32)
    requires
        m.wf(),
        m.zsets.contains_key(k),
    ensures
        m.zrmv(k, v).zrange(k, min, max) is Some,
        forall|i: int| #![trigger m.zrmv(k, v).zrange(k, min, max)->Some_0[i]]
            0 <= i < m.zrmv(k, v).zrange(k, min, max)->Some_0.len()
            ==> m.zrmv(k, v).zrange(k, min, max)->Some_0[i].1 != v,
{
    let z = m.zsets[k];
    z.lemma_remove_wf(v);
    let n = z.remove(v);
    n.lemma_range_contents(min, max);
    assert(!n.scores.contains_key(v));
    assert(m.zrmv(k, v).zrange(k, min, max) == Some(n.range(min, max)));
}

/// `LIST keys` holds, for each distinct key that has a value, the pair of
/// the key and its value, each key once and nothing else; it is empty
/// exactly when none of the keys has a value.
pub proof fn lemma_list_contents(m: StoreModel, keys: Seq<Seq<char>>)
    ensures
        ({
            let r = m.list(keys);
            &&& forall|i: int| #![trigger r[i]] 0 <= i < r.len() ==> {
                &&& keys.contains(r[i].0)
                &&& m.kv.contains_key(r[i].0)
                &&& r[i].1 == m.kv[r[i].0]
            }
            &&& forall|i: int, j: int| 0 <= i < j < r.len() ==> #[trigger] r[i].0 != #[trigger] r[j].0
            &&& forall|k: Seq<char>| #[trigger] keys.contains(k) && m.kv.contains_key(k)
                ==> exists|i: int| 0 <= i < r.len() && r[i].0 == k
            &&& (r.len() == 0 <==> forall|k: Seq<char>| #[trigger] keys.contains(k) ==> !m.kv.contains_key(k))
        }),
{
    lemma_dedup_contents(keys);
    lemma_found_contents(m.kv, dedup(keys));
    let d = dedup(keys);
    let r = m.list(keys);
    assert forall|k: Seq<char>| #[trigger] keys.contains(k) && m.kv.contains_key(k)
        implies exists|i: int| 0 <= i < r.len() && r[i].0 == k by {
        assert(d.contains(k));
    }
    if r.len() == 0 {
        assert forall|k: Seq<char>| #[trigger] keys.contains(k) implies !m.kv.contains_key(k) by {
            if m.kv.contains_key(k) {
                assert(d.contains(k));
            }
        }
    } else {
        assert(keys.contains(r[0].0));
    }
}

/// The distinct keys are the keys, each once.
pub proof fn lemma_dedup_contents(keys: Seq<Seq<char>>)
    ensures
        dedup(keys).no_duplicates(),
        forall|k: Seq<char>| #[trigger] dedup(keys).contains(k) <==> keys.contains(k),
    decreases keys.len(),
{
    if keys.len() > 0 {
        let init = keys.drop_last();
        let last = keys.last();
        lemma_dedup_contents(init);
        let d = dedup(init);
        assert(keys =~= init.push(last));
        assert forall|k: Seq<char>| keys.contains(k) <==> (init.contains(k) || k == last) by {
            if keys.contains(k) && k != last {
                let j = choose|j: int| 0 <= j < keys.len() && keys[j] == k;
                assert(j != keys.len() - 1);
                assert(init[j] == k);
            }
            if init.contains(k) {
                let j = choose|j: int| 0 <= j < init.len() && init[j] == k;
                assert(keys[j] == k);
            }
            if k == last {
                assert(keys[keys.len() - 1] == k);
            }
        }
        if !d.contains(last) {
            let e = d.push(last);
            assert forall|k: Seq<char>| e.contains(k) <==> (d.contains(k) || k == last) by {
                if e.contains(k) && k != last {
                    let j = choose|j: int| 0 <= j < e.len() && e[j] == k;
                    assert(d[j] == k);
                }
                if d.contains(k) {
                    let j = choose|j: int| 0 <= j < d.len() && d[j] == k;
                    assert(e[j] == k);
                }
                if k == last {
                    assert(e[d.len() as int] == k);
                }
            }
            assert forall|i: int, j: int| 0 <= i < e.len() && 0 <= j < e.len() && i != j implies e[i] != e[j] by {
                if i < d.len() && j < d.len() {
                    assert(e[i] == d[i] && e[j] == d[j]);
                } else if i < d.len() {
                    assert(e[i] == d[i]);
                } else {
                    assert(e[j] == d[j]);
                }
            }
        }
    }
}

/// The pairs found for duplicate-free keys: each with a key of `keys` that
/// has a value, and that value; each key once; every key that has a value.
pub proof fn lemma_found_contents(kv: Map<Seq<char>, Seq<char>>, keys: Seq<Seq<char>>)
    requires
        keys.no_duplicates(),
    ensures
        ({
            let r = found(kv, keys);
            &&& forall|i: int| #![trigger r[i]] 0 <= i < r.len() ==> {
                &&& keys.contains(r[i].0)
                &&& kv.contains_key(r[i].0)
                &&& r[i].1 == kv[r[i].0]
            }
            &&& forall|i: int, j: int| 0 <= i < j < r.len() ==> #[trigger] r[i].0 != #[trigger] r[j].0
            &&& forall|k: Seq<char>| #[trigger] keys.contains(k) && kv.contains_key(k)
                ==> exists|i: int| 0 <= i < r.len() && r[i].0 == k
        }),
    decreases keys.len(),
{
    if keys.len() > 0 {
        let init = keys.drop_last();
        let last = keys.last();
        assert(init.no_duplicates());
        lemma_found_contents(kv, init);
        let f = found(kv, init);
        let r = found(kv, keys);
        assert(!init.contains(last)) by {
            if init.contains(last) {
                let j = choose|j: int| 0 <= j < init.len() && init[j] == last;
                assert(keys[j] == keys[keys.len() - 1]);
            }
        }
        assert forall|i: int| #![trigger r[i]] 0 <= i < r.len() implies {
            &&& keys.contains(r[i].0)
            &&& kv.contains_key(r[i].0)
            &&& r[i].1 == kv[r[i].0]
        } by {
            if i < f.len() {
                assert(r[i] == f[i]);
                let j = choose|j: int| 0 <= j < init.len() && init[j] == f[i].0;
                assert(keys[j] == f[i].0);
            } else {
                assert(keys[keys.len() - 1] == last);
            }
        }
        assert forall|i: int, j: int| 0 <= i < j < r.len() implies #[trigger] r[i].0 != #[trigger] r[j].0 by {
            if j >= f.len() {
                assert(r[i] == f[i]);
            } else {
                assert(r[i] == f[i]);
                assert(r[j] == f[j]);
            }
        }
        assert forall|k: Seq<char>| #[trigger] keys.contains(k) && kv.contains_key(k)
            implies exists|i: int| 0 <= i < r.len() && r[i].0 == k by {
            if k == last {
                assert(r[f.len() as int].0 == k);
            } else {
                let j = choose|j: int| 0 <= j < keys.len() && keys[j] == k;
                assert(j != keys.len() - 1);
                assert(init[j] == k);
                assert(init.contains(k));
                let i = choose|i: int| 0 <= i < f.len() && f[i].0 == k;
                assert(r[i] == f[i]);
            }
        }
    }
}

/// After a batch of `ADD`s, a key holds the value of the last pair that
/// names it; a key that no pair names holds what it held.
pub proof fn lemma_batch_last_wins(m: StoreModel, kvs: Seq<(Seq<char>, Seq<char>)>, k: Seq<char>)
    ensures
        forall|j: int| #![trigger kvs[j]] 0 <= j < kvs.len() && kvs[j].0 == k
            && (forall|l: int| j < l < kvs.len() ==> kvs[l].0 != k) ==> {
            &&& m.insert_all(kvs).kv.contains_key(k)
            &&& m.insert_all(kvs).kv[k] == kvs[j].1
        },
        (forall|j: int| 0 <= j < kvs.len() ==> kvs[j].0 != k) ==> {
            &&& m.insert_all(kvs).kv.contains_key(k) == m.kv.contains_key(k)
            &&& m.kv.contains_key(k) ==> m.insert_all(kvs).kv[k] == m.kv[k]
        },
    decreases kvs.len(),
{
    if kvs.len() > 0 {
        let init = kvs.drop_last();
        lemma_batch_last_wins(m, init, k);
        assert forall|j: int| #![trigger kvs[j]] 0 <= j < kvs.len() && kvs[j].0 == k
            && (forall|l: int| j < l < kvs.len() ==> kvs[l].0 != k) implies {
            &&& m.insert_all(kvs).kv.contains_key(k)
            &&& m.insert_all(kvs).kv[k] == kvs[j].1
        } by {
            if j < kvs.len() - 1 {
                assert(kvs[kvs.len() - 1].0 != k);
                assert(init[j] == kvs[j]);
                assert forall|l: int| j < l < init.len() implies init[l].0 != k by {
                    assert(init[l] == kvs[l]);
                }
            }
        }
        if forall|j: int| 0 <= j < kvs.len() ==> kvs[j].0 != k {
            assert forall|j: int| 0 <= j < init.len() implies init[j].0 != k by {
                assert(init[j] == kvs[j]);
            }
            assert(kvs[kvs.len() - 1].0 != k);
        }
    }
}

/// Only the first `init` claims the start-up load: once claimed, a second
/// claim is refused.
pub proof fn lemma_load_claimed_once(m: StoreModel)
    requires
        m.load_state == LOAD_STATE_INIT,
    ensures
        (StoreModel { load_state: LOAD_STATE_LOADING, ..m }).load_state != LOAD_STATE_INIT,
{
}

/// Every key belongs to one of the nodes: its shard is below the node
/// count (and 0 while the count is unknown).
pub proof fn lemma_shard_in_range(key: Seq<char>, count: u64)
    ensures
        count > 0 ==> shard_of(key, count) < count,
        count == 0 ==> shard_of(key, count) == 0,
{
}

/// On a single node (or before the cluster is known) every key is served
/// by this node, so it keeps all the keys of a `LIST` for itself.
pub proof fn lemma_single_node_keeps_all(keys: Seq<Seq<char>>, count: u64)
    requires
        count <= 1,
    ensures
        keys_of_node(keys, count, 0) == keys,
    decreases keys.len(),
{
    if keys.len() > 0 {
        lemma_single_node_keeps_all(keys.drop_last(), count);
        assert(node_of(keys.last(), count) == 0);
        assert(keys.drop_last().push(keys.last()) =~= keys);
    }
}


/// Splitting by node loses and invents nothing: a key lands in the share of
/// node `s` exactly when it is one of the keys and node `s` owns it.
pub proof fn lemma_keys_of_node_membership(keys: Seq<Seq<char>>, count: u64, s: u32, k: Seq<char>)
    ensures
        keys_of_node(keys, count, s).contains(k) <==> (keys.contains(k) && node_of(k, count) == s),
    decreases keys.len(),
{
    if keys.len() > 0 {
        let init = keys.drop_last();
        lemma_keys_of_node_membership(init, count, s, k);
        let p = keys_of_node(init, count, s);
        assert(keys =~= init.push(keys.last()));
        if keys.contains(k) && k != keys.last() {
            let j = choose|j: int| 0 <= j < keys.len() && keys[j] == k;
            assert(j != keys.len() - 1);
            assert(init[j] == k);
        }
        if init.contains(k) {
            let j = choose|j: int| 0 <= j < init.len() && init[j] == k;
            assert(keys[j] == k);
        }
        if k == keys.last() {
            assert(keys[keys.len() - 1] == k);
        }
        if node_of(keys.last(), count) == s {
            let q = p.push(keys.last());
            if q.contains(k) && k != keys.last() {
                let j = choose|j: int| 0 <= j < q.len() && q[j] == k;
                assert(p[j] == k);
            }
            if p.contains(k) {
                let j = choose|j: int| 0 <= j < p.len() && p[j] == k;
                assert(q[j] == k);
            }
            assert(q[p.len() as int] == keys.last());
        }
    }
}

/// Splitting a batch by node loses and invents nothing: a pair lands in the
/// share of node `s` exactly when it is one of the pairs and node `s` owns
/// its key.
pub proof fn lemma_pairs_of_node_membership(
    kvs: Seq<(Seq<char>, Seq<char>)>,
    count: u64,
    s: u32,
    kv: (Seq<char>, Seq<char>),
)
    ensures
        pairs_of_node(kvs, count, s).contains(kv) <==> (kvs.contains(kv) && node_of(kv.0, count) == s),
    decreases kvs.len(),
{
    if kvs.len() > 0 {
        let init = kvs.drop_last();
        lemma_pairs_of_node_membership(init, count, s, kv);
        let p = pairs_of_node(init, count, s);
        assert(kvs =~= init.push(kvs.last()));
        if kvs.contains(kv) && kv != kvs.last() {
            let j = choose|j: int| 0 <= j < kvs.len() && kvs[j] == kv;
            assert(j != kvs.len() - 1);
            assert(init[j] == kv);
        }
        if init.contains(kv) {
            let j = choose|j: int| 0 <= j < init.len() && init[j] == kv;
            assert(kvs[j] == kv);
        }
        if kv == kvs.last() {
            assert(kvs[kvs.len() - 1] == kv);
        }
        if node_of(kvs.last().0, count) == s {
            let q = p.push(kvs.last());
            if q.contains(kv) && kv != kvs.last() {
                let j = choose|j: int| 0 <= j < q.len() && q[j] == kv;
                assert(p[j] == kv);
            }
            if p.contains(kv) {
                let j = choose|j: int| 0 <= j < p.len() && p[j] == kv;
                assert(q[j] == kv);
            }
            assert(q[p.len() as int] == kvs.last());
        }
    }
}

/// Operations on data never move keys between nodes: the node that serves
/// a key stays the same.
pub proof fn lemma_ops_keep_routing(
    m: StoreModel,
    k: Seq<char>,
    v: Seq<char>,
    s: u32,
    kvs: Seq<(Seq<char>, Seq<char>)>,
    key: Seq<char>,
)
    ensures
        serves(m.insert_kv(k, v), key) == serves(m, key),
        serves(m.insert_all(kvs), key) == serves(m, key),
        serves(m.del(k), key) == serves(m, key),
        serves(m.zadd(k, v, s), key) == serves(m, key),
        serves(m.zrmv(k, v), key) == serves(m, key),
    decreases kvs.len(),
{
    if kvs.len() > 0 {
        lemma_ops_keep_routing(m, k, v, s, kvs.drop_last(), key);
    }
}


/// Giving a member a score twice is the same as giving it the second score
/// alone: the set holds the same members with the same scores, so every
/// range holds the same members (each once) with the same scores; nothing
/// else differs.
pub proof fn lemma_zadd_twice(m: StoreModel, k: Seq<char>, v: Seq<char>, s1: u32, s2: u32, min: u32, max: u32, x: (u32, Seq<char>))
    requires
        m.wf(),
        !m.zadd_refused(k),
    ensures
        ({
            let a = m.zadd(k, v, s1).zadd(k, v, s2);
            let b = m.zadd(k, v, s2);
            &&& a.kv == b.kv
            &&& a.zsets.remove(k) == b.zsets.remove(k)
            &&& a.zsets[k].scores == b.zsets[k].scores
            &&& a.zrange(k, min, max) is Some
            &&& b.zrange(k, min, max) is Some
            &&& (a.zrange(k, min, max)->Some_0.contains(x) <==> b.zrange(k, min, max)->Some_0.contains(x))
        }),
{
    let z = set_or_empty(m.zsets, k);
    assert(z.wf());
    z.lemma_add_wf(v, s1);
    let z1 = z.add(v, s1);
    z1.lemma_add_wf(v, s2);
    z.lemma_add_wf(v, s2);
    let za = z1.add(v, s2);
    let zb = z.add(v, s2);
    assert(za.scores =~= zb.scores);
    let a = m.zadd(k, v, s1).zadd(k, v, s2);
    let b = m.zadd(k, v, s2);
    assert(set_or_empty(m.zadd(k, v, s1).zsets, k) == z1);
    assert(a.zsets[k] == za);
    assert(b.zsets[k] == zb);
    assert(a.zsets.remove(k) =~= b.zsets.remove(k));
    za.lemma_range_membership(min, max, x);
    zb.lemma_range_membership(min, max, x);
}

/// Giving a set a new member and taking it out again leaves every range of
/// that set as it was, and the rest of the store too.
pub proof fn lemma_zadd_new_then_zrmv(m: StoreModel, k: Seq<char>, v: Seq<char>, s: u32, min: u32, max: u32)
    requires
        m.wf(),
        !m.zadd_refused(k),
        m.zsets.contains_key(k),
        !m.zsets[k].scores.contains_key(v),
    ensures
        m.zadd(k, v, s).zrmv(k, v).zrange(k, min, max) == m.zrange(k, min, max),
        m.zadd(k, v, s).zrmv(k, v).kv == m.kv,
        m.zadd(k, v, s).zrmv(k, v).zsets.remove(k) == m.zsets.remove(k),
        m.zadd(k, v, s).zrmv(k, v).zsets[k].scores == m.zsets[k].scores,
{
    let z = m.zsets[k];
    let z1 = z.add(v, s);
    let z2 = z1.remove(v);
    let b = z.bucket(s);
    assert(!b.contains(v)) by {
        if b.contains(v) {
            let i = choose|i: int| 0 <= i < b.len() && b[i] == v;
            assert(z.scores.contains_key(b[i]));
        }
    }
    let bp = b.push(v);
    assert(z1.bucket(s) == bp);
    let i = bp.index_of(v);
    assert(bp[b.len() as int] == v);
    assert(i == b.len()) by {
        assert(0 <= i < bp.len() && bp[i] == v);
        if i < b.len() {
            assert(b[i] == v);
        }
    }
    assert(crate::zset::without(bp, v) =~= b);
    assert forall|x: u32| #[trigger] z2.bucket(x) == z.bucket(x) by {
        if x == s {
            assert(z2.bucket(x) == crate::zset::without(z1.bucket(s), v));
        }
    }
    assert(z2.scores =~= z.scores);
    z2.lemma_range_same_buckets(z, min, max as int);
    let r = m.zadd(k, v, s).zrmv(k, v);
    assert(r.zsets[k] == z2);
    assert(r.zsets.remove(k) =~= m.zsets.remove(k));
}

/// On any set, a range whose start lies above its end is empty.
pub proof fn lemma_reversed_zrange_empty(m: StoreModel, k: Seq<char>, min: u32, max: u32)
    requires
        max < min,
        m.zsets.contains_key(k),
    ensures
        m.zrange(k, min, max) == Some(Seq::<(u32, Seq<char>)>::empty()),
{
    m.zsets[k].lemma_reversed_range_empty(min, max);
}

/// What is written is what a reload gives back: the rows written for
/// `ADD k v` and for `ZADD z score member` (the text's UTF-8 bytes; the
/// row key and score bytes of `codec`) meet what the loaders require, and
/// loading them (`load_kv_entry`, then `load_zset_entry`, which takes the
/// row) leaves `k` holding `v` and the set `z` holding the member with its
/// score. The set's name must hold no `'\0'`, differ from `k`, and name no
/// value or set before.
pub proof fn lemma_reload_gives_back(
    m: StoreModel,
    k: Seq<char>,
    v: Seq<char>,
    z: Seq<char>,
    member: Seq<char>,
    s: u32,
)
    requires
        m.wf(),
        z != k,
        !z.contains('\0'),
        !m.kv.contains_key(z),
        !m.zsets.contains_key(z),
    ensures
        valid_utf8(encode_utf8(k)),
        valid_utf8(encode_utf8(v)),
        is_row_key(zset_row_key(z, member)),
        vstd::bytes::spec_u32_to_le_bytes(s).len() == 4,
        ({
            let m1 = m.insert_kv(decode_utf8(encode_utf8(k)), decode_utf8(encode_utf8(v)));
            let (zk, zm) = split_row_key(zset_row_key(z, member));
            let sc = vstd::bytes::spec_u32_from_le_bytes(vstd::bytes::spec_u32_to_le_bytes(s));
            let m2 = m1.zadd(zk, zm, sc);
            &&& !m1.zadd_refused(zk)
            &&& m2.kv.contains_key(k)
            &&& m2.kv[k] == v
            &&& m2.zrange(z, s, s) == Some(seq![(s, member)])
        }),
{
    broadcast use vstd::utf8::group_utf8_lib;

    lemma_row_key_roundtrip(z, member);
    lemma_score_roundtrip(s);
    let m1 = m.insert_kv(decode_utf8(encode_utf8(k)), decode_utf8(encode_utf8(v)));
    assert(m1.kv =~= m.kv.insert(k, v));
    let m2 = m1.zadd(z, member, s);
    let n = ZSetModel::empty().add(member, s);
    assert(set_or_empty(m1.zsets, z) == ZSetModel::empty());
    assert(m2.zsets[z] == n);
    assert(n.bucket(s) =~= seq![member]);
    assert(n.range(s, s) == n.range_upto(s, s as int - 1) + crate::zset::tag_with_score(s, n.bucket(s)));
    assert(n.range_upto(s, s as int - 1) =~= Seq::<(u32, Seq<char>)>::empty());
    assert(n.range(s, s) =~= seq![(s, member)]);
}


/// `ADD k v` touches nothing but `k`: every other key keeps its value (or
/// its absence) and its sorted set (or its absence), so every range on it
/// answers as before; the load and cluster state stay too.
pub proof fn lemma_add_touches_only_its_key(
    m: StoreModel,
    k: Seq<char>,
    v: Seq<char>,
    k2: Seq<char>,
    min: u32,
    max: u32,
)
    requires
        k2 != k,
    ensures
        m.insert_kv(k, v).kv.contains_key(k2) == m.kv.contains_key(k2),
        m.kv.contains_key(k2) ==> m.insert_kv(k, v).kv[k2] == m.kv[k2],
        m.insert_kv(k, v).zsets.contains_key(k2) == m.zsets.contains_key(k2),
        m.zsets.contains_key(k2) ==> m.insert_kv(k, v).zsets[k2] == m.zsets[k2],
        m.insert_kv(k, v).zrange(k2, min, max) == m.zrange(k2, min, max),
        m.insert_kv(k, v).me == m.me,
        m.insert_kv(k, v).count == m.count,
        m.insert_kv(k, v).load_state == m.load_state,
        m.insert_kv(k, v).peer_updated == m.peer_updated,
{
}

/// An accepted `ZADD k v s` touches nothing but the set `k`, whether or not
/// it existed: every other key keeps its value and its set, no plain value
/// changes; inside `k` every other member keeps its score.
pub proof fn lemma_zadd_touches_only_its_set(
    m: StoreModel,
    k: Seq<char>,
    v: Seq<char>,
    s: u32,
    k2: Seq<char>,
    u: Seq<char>,
    min: u32,
    max: u32,
)
    requires
        m.wf(),
        !m.zadd_refused(k),
    ensures
        m.zadd(k, v, s).kv == m.kv,
        m.zadd(k, v, s).zsets.contains_key(k),
        k2 != k ==> m.zadd(k, v, s).zsets.contains_key(k2) == m.zsets.contains_key(k2),
        k2 != k && m.zsets.contains_key(k2) ==> m.zadd(k, v, s).zsets[k2] == m.zsets[k2],
        k2 != k ==> m.zadd(k, v, s).zrange(k2, min, max) == m.zrange(k2, min, max),
        u != v ==> m.zadd(k, v, s).zsets[k].scores.contains_key(u) == set_or_empty(m.zsets, k).scores.contains_key(u),
        u != v && set_or_empty(m.zsets, k).scores.contains_key(u) ==> m.zadd(k, v, s).zsets[k].scores[u]
            == set_or_empty(m.zsets, k).scores[u],
        m.zadd(k, v, s).zsets[k].scores.contains_key(v),
        m.zadd(k, v, s).zsets[k].scores[v] == s,
{
}

/// `ZRMV k v` never changes a plain value and no set but `k`; inside `k`
/// only `v` leaves (every other member keeps its score, and a range loses
/// exactly the entry of `v`); with no set `k` the store is unchanged.
pub proof fn lemma_zrmv_touches_only_its_member(
    m: StoreModel,
    k: Seq<char>,
    v: Seq<char>,
    k2: Seq<char>,
    u: Seq<char>,
    min: u32,
    max: u32,
    x: (u32, Seq<char>),
)
    requires
        m.wf(),
    ensures
        m.zrmv(k, v).kv == m.kv,
        !m.zsets.contains_key(k) ==> m.zrmv(k, v) == m,
        m.zrmv(k, v).zsets.dom() == m.zsets.dom(),
        k2 != k && m.zsets.contains_key(k2) ==> m.zrmv(k, v).zsets[k2] == m.zsets[k2],
        m.zsets.contains_key(k) && u != v ==> {
            &&& m.zrmv(k, v).zsets[k].scores.contains_key(u) == m.zsets[k].scores.contains_key(u)
            &&& m.zsets[k].scores.contains_key(u) ==> m.zrmv(k, v).zsets[k].scores[u] == m.zsets[k].scores[u]
        },
        m.zsets.contains_key(k) ==> (m.zrmv(k, v).zrange(k, min, max)->Some_0.contains(x) <==> (
        m.zrange(k, min, max)->Some_0.contains(x) && x.1 != v)),
{
    if m.zsets.contains_key(k) {
        let z = m.zsets[k];
        z.lemma_remove_wf(v);
        let n = z.remove(v);
        assert(m.zrmv(k, v).zsets[k] == n);
        assert(m.zrmv(k, v).zsets.dom() =~= m.zsets.dom());
        z.lemma_range_membership(min, max, x);
        n.lemma_range_membership(min, max, x);
    }
}

/// A batch touches no sorted set that none of its pairs names: such a set
/// stays as it was (and so does its absence), whatever the other pairs.
pub proof fn lemma_batch_keeps_unnamed_sets(
    m: StoreModel,
    kvs: Seq<(Seq<char>, Seq<char>)>,
    k2: Seq<char>,
)
    requires
        forall|j: int| 0 <= j < kvs.len() ==> #[trigger] kvs[j].0 != k2,
    ensures
        m.insert_all(kvs).zsets.contains_key(k2) == m.zsets.contains_key(k2),
        m.zsets.contains_key(k2) ==> m.insert_all(kvs).zsets[k2] == m.zsets[k2],
    decreases kvs.len(),
{
    if kvs.len() > 0 {
        let init = kvs.drop_last();
        assert forall|j: int| 0 <= j < init.len() implies #[trigger] init[j].0 != k2 by {
            assert(init[j] == kvs[j]);
        }
        lemma_batch_keeps_unnamed_sets(m, init, k2);
        assert(kvs[kvs.len() - 1].0 != k2);
    }
}

/// The pairs that peers answered, gathered: gathering two runs of answers
/// one after the other gives the first run's pairs then the second's; a
/// successful answer contributes all its pairs, in order; a failed one
/// contributes none. So the gathered pairs are every pair of every
/// successful answer, in order.
pub proof fn lemma_answered_pairs_concat(
    a: Seq<Result<Vec<InsrtRequest>, ()>>,
    b: Seq<Result<Vec<InsrtRequest>, ()>>,
    p: Vec<InsrtRequest>,
)
    ensures
        answered_pairs(a + b) == answered_pairs(a) + answered_pairs(b),
        answered_pairs(seq![Ok::<Vec<InsrtRequest>, ()>(p)]) == pairs_view(p@),
        answered_pairs(seq![Err::<Vec<InsrtRequest>, ()>(())]) == Seq::<(Seq<char>, Seq<char>)>::empty(),
        answered_pairs(Seq::<Result<Vec<InsrtRequest>, ()>>::empty()) == Seq::<(Seq<char>, Seq<char>)>::empty(),
    decreases b.len(),
{
    let ok1 = seq![Ok::<Vec<InsrtRequest>, ()>(p)];
    let none = Seq::<Result<Vec<InsrtRequest>, ()>>::empty();
    assert(answered_pairs(none) == Seq::<(Seq<char>, Seq<char>)>::empty());
    assert(ok1.drop_last() =~= none);
    assert(ok1.last() == Ok::<Vec<InsrtRequest>, ()>(p));
    assert(Seq::<(Seq<char>, Seq<char>)>::empty() + pairs_view(p@) =~= pairs_view(p@));
    assert(answered_pairs(ok1) =~= pairs_view(p@));
    let err1 = seq![Err::<Vec<InsrtRequest>, ()>(())];
    assert(err1.drop_last() =~= Seq::<Result<Vec<InsrtRequest>, ()>>::empty());
    assert(answered_pairs(err1) =~= Seq::<(Seq<char>, Seq<char>)>::empty());
    if b.len() == 0 {
        assert(a + b =~= a);
        assert(answered_pairs(a) + answered_pairs(b) =~= answered_pairs(a));
    } else {
        lemma_answered_pairs_concat(a, b.drop_last(), p);
        assert((a + b).drop_last() =~= a + b.drop_last());
        assert((a + b).last() == b.last());
        assert(answered_pairs(a + b) =~= answered_pairs(a) + answered_pairs(b));
    }
}


/// Looking up keys in two runs gives the first run's pairs then the
/// second's; one key gives its pair when it has a value, none otherwise.
pub proof fn lemma_found_concat(kv: Map<Seq<char>, Seq<char>>, a: Seq<Seq<char>>, b: Seq<Seq<char>>, k: Seq<char>)
    ensures
        found(kv, a + b) == found(kv, a) + found(kv, b),
        found(kv, seq![k]) == (if kv.contains_key(k) {
            seq![(k, kv[k])]
        } else {
            Seq::<(Seq<char>, Seq<char>)>::empty()
        }),
    decreases b.len(),
{
    let one = seq![k];
    assert(one.drop_last() =~= Seq::<Seq<char>>::empty());
    assert(one.last() == k);
    assert(found(kv, Seq::<Seq<char>>::empty()) == Seq::<(Seq<char>, Seq<char>)>::empty());
    assert(Seq::<(Seq<char>, Seq<char>)>::empty().push((k, kv[k])) =~= seq![(k, kv[k])]);
    if b.len() == 0 {
        assert(a + b =~= a);
        assert(found(kv, a) + found(kv, b) =~= found(kv, a));
    } else {
        lemma_found_concat(kv, a, b.drop_last(), k);
        assert((a + b).drop_last() =~= a + b.drop_last());
        assert((a + b).last() == b.last());
        if kv.contains_key(b.last()) {
            assert(found(kv, a + b) =~= found(kv, a) + found(kv, b));
        } else {
            assert(found(kv, a + b) =~= found(kv, a) + found(kv, b));
        }
    }
}

/// Keys that are already distinct come out of the de-duplication as they
/// went in, in the same order.
pub proof fn lemma_dedup_distinct(keys: Seq<Seq<char>>)
    requires
        keys.no_duplicates(),
    ensures
        dedup(keys) == keys,
    decreases keys.len(),
{
    if keys.len() > 0 {
        let init = keys.drop_last();
        assert(init.no_duplicates());
        lemma_dedup_distinct(init);
        assert(!init.contains(keys.last())) by {
            if init.contains(keys.last()) {
                let j = choose|j: int| 0 <= j < init.len() && init[j] == keys.last();
                assert(keys[j] == keys[keys.len() - 1]);
            }
        }
        assert(init.push(keys.last()) =~= keys);
    }
}

/// Splitting keys by node keeps their order: the share of a node in two
/// runs of keys is its share of the first run, then of the second.
pub proof fn lemma_keys_of_node_concat(a: Seq<Seq<char>>, b: Seq<Seq<char>>, count: u64, s: u32)
    ensures
        keys_of_node(a + b, count, s) == keys_of_node(a, count, s) + keys_of_node(b, count, s),
    decreases b.len(),
{
    if b.len() == 0 {
        assert(a + b =~= a);
        assert(keys_of_node(b, count, s) =~= Seq::<Seq<char>>::empty());
        assert(keys_of_node(a, count, s) + keys_of_node(b, count, s) =~= keys_of_node(a, count, s));
    } else {
        lemma_keys_of_node_concat(a, b.drop_last(), count, s);
        assert((a + b).drop_last() =~= a + b.drop_last());
        assert((a + b).last() == b.last());
        assert(keys_of_node(a + b, count, s) =~= keys_of_node(a, count, s) + keys_of_node(b, count, s));
    }
}

/// Splitting a batch by node keeps the pairs' order: the share of a node in
/// two runs of pairs is its share of the first run, then of the second.
pub proof fn lemma_pairs_of_node_concat(
    a: Seq<(Seq<char>, Seq<char>)>,
    b: Seq<(Seq<char>, Seq<char>)>,
    count: u64,
    s: u32,
)
    ensures
        pairs_of_node(a + b, count, s) == pairs_of_node(a, count, s) + pairs_of_node(b, count, s),
    decreases b.len(),
{
    if b.len() == 0 {
        assert(a + b =~= a);
        assert(pairs_of_node(b, count, s) =~= Seq::<(Seq<char>, Seq<char>)>::empty());
        assert(pairs_of_node(a, count, s) + pairs_of_node(b, count, s) =~= pairs_of_node(a, count, s));
    } else {
        lemma_pairs_of_node_concat(a, b.drop_last(), count, s);
        assert((a + b).drop_last() =~= a + b.drop_last());
        assert((a + b).last() == b.last());
        assert(pairs_of_node(a + b, count, s) =~= pairs_of_node(a, count, s) + pairs_of_node(b, count, s));
    }
}

} // verus!
