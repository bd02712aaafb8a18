//! The store: plain key-value pairs and sorted sets, whose names never
//! clash, plus this node's view of the cluster and of its start-up load.

use crate::codec::copy_range;
use crate::codec::decode_score;
use crate::codec::string_from_utf8;
use crate::codec::is_row_key;
use crate::codec::split_row_key;
use crate::cuckoo::text_map_contents;
use crate::cuckoo::text_map_get;
use crate::cuckoo::text_map_insert;
use crate::cuckoo::text_map_new;
use crate::cuckoo::text_map_remove;
use crate::dto::InsrtRequest;
use crate::dto::ScoreRange;
use crate::dto::ScoreValue;
use crate::shard::get_shard;
use crate::shard::shard_of;
use crate::zset::score_values_view;
use crate::zset::strings_view;
use crate::zset::ZSetModel;
use crate::zset_table::set_or_empty;
use crate::zset_table::ZSetTable;
use lockfree_cuckoohash::LockFreeCuckooHash;
use vstd::prelude::*;
use vstd::utf8::decode_utf8;
use vstd::utf8::valid_utf8;

verus! {

/// No start-up load has begun.
pub const LOAD_STATE_INIT: u32 = 0;

/// The start-up load is running.
pub const LOAD_STATE_LOADING: u32 = 1;

/// The start-up load is over.
pub const LOAD_STATE_LOADED: u32 = 2;

/// The start-up load failed.
pub const LOAD_STATE_FAILED: u32 = 3;

/// The mathematical content of the store.
pub struct StoreModel {
    /// Plain values by key.
    pub kv: Map<Seq<char>, Seq<char>>,
    /// Sorted sets by key.
    pub zsets: Map<Seq<char>, ZSetModel>,
    /// This node's zero-based index in the cluster.
    pub me: u32,
    /// How many nodes the cluster has (0 before it is known).
    pub count: u64,
    /// Whether the cluster description has been taken up.
    pub peer_updated: bool,
    /// Where the start-up load stands.
    pub load_state: u32,
}

/// The key-value pairs of a vector of `InsrtRequest`.
pub open spec fn pairs_view(v: Seq<InsrtRequest>) -> Seq<(Seq<char>, Seq<char>)> {
    v.map_values(|x: InsrtRequest| x@)
}

/// The keys in order of first occurrence, each once.
pub open spec fn dedup(keys: Seq<Seq<char>>) -> Seq<Seq<char>>
    decreases keys.len(),
{
    if keys.len() == 0 {
        Seq::empty()
    } else {
        let d = dedup(keys.drop_last());
        if d.contains(keys.last()) {
            d
        } else {
            d.push(keys.last())
        }
    }
}

/// The pairs `(key, value)` for those of `keys` that `kv` holds, in the
/// order of `keys`.
pub open spec fn found(kv: Map<Seq<char>, Seq<char>>, keys: Seq<Seq<char>>) -> Seq<
    (Seq<char>, Seq<char>),
>
    decreases keys.len(),
{
    if keys.len() == 0 {
        Seq::empty()
    } else {
        let f = found(kv, keys.drop_last());
        if kv.contains_key(keys.last()) {
            f.push((keys.last(), kv[keys.last()]))
        } else {
            f
        }
    }
}

impl StoreModel {
    /// No key holds both a plain value and a sorted set, and every sorted
    /// set is well formed.
    pub open spec fn wf(self) -> bool {
        &&& forall|k: Seq<char>| #[trigger]
            self.kv.contains_key(k) ==> !self.zsets.contains_key(k)
        &&& forall|k: Seq<char>| #[trigger] self.zsets.contains_key(k) ==> self.zsets[k].wf()
    }

    /// `ADD key value`: the key holds `value`, and a sorted set of that name
    /// is dropped.
    pub open spec fn insert_kv(self, k: Seq<char>, v: Seq<char>) -> StoreModel {
        StoreModel { kv: self.kv.insert(k, v), zsets: self.zsets.remove(k), ..self }
    }

    /// `ADD` of each pair in turn.
    pub open spec fn insert_all(self, kvs: Seq<(Seq<char>, Seq<char>)>) -> StoreModel
        decreases kvs.len(),
    {
        if kvs.len() == 0 {
            self
        } else {
            self.insert_all(kvs.drop_last()).insert_kv(kvs.last().0, kvs.last().1)
        }
    }

    /// The plain value under `k` goes.
    pub open spec fn remove_kv(self, k: Seq<char>) -> StoreModel {
        StoreModel { kv: self.kv.remove(k), ..self }
    }

    /// `DEL key`: the key holds nothing any more.
    pub open spec fn del(self, k: Seq<char>) -> StoreModel {
        StoreModel { kv: self.kv.remove(k), zsets: self.zsets.remove(k), ..self }
    }

    /// Whether `ZADD` on `k` is refused: the key holds a plain value.
    pub open spec fn zadd_refused(self, k: Seq<char>) -> bool {
        self.kv.contains_key(k)
    }

    /// `ZADD key score value` when it is accepted.
    pub open spec fn zadd(self, k: Seq<char>, v: Seq<char>, s: u32) -> StoreModel {
        StoreModel { zsets: self.zsets.insert(k, set_or_empty(self.zsets, k).add(v, s)), ..self }
    }

    /// `ZRMV key value`.
    pub open spec fn zrmv(self, k: Seq<char>, v: Seq<char>) -> StoreModel {
        if self.zsets.contains_key(k) {
            StoreModel { zsets: self.zsets.insert(k, self.zsets[k].remove(v)), ..self }
        } else {
            self
        }
    }

    /// `ZRANGE key min max`: `None` when there is no sorted set `key`.
    pub open spec fn zrange(self, k: Seq<char>, min: u32, max: u32) -> Option<Seq<(u32, Seq<char>)>> {
        if self.zsets.contains_key(k) {
            Some(self.zsets[k].range(min, max))
        } else {
            None
        }
    }

    /// `LIST keys`: the pairs for the distinct keys that hold a plain value,
    /// in the order in which the keys first occur.
    pub open spec fn list(self, keys: Seq<Seq<char>>) -> Seq<(Seq<char>, Seq<char>)> {
        found(self.kv, dedup(keys))
    }
}

/// The cache store.
pub struct Storage {
    kv: LockFreeCuckooHash<String, String>,
    zsets: ZSetTable,
    me: u32,
    count: u64,
    peer_updated: bool,
    load_state: u32,
}

impl Storage {
    /// What the store holds.
    pub closed spec fn view(&self) -> StoreModel {
        StoreModel {
            kv: text_map_contents(self.kv),
            zsets: self.zsets.view(),
            me: self.me,
            count: self.count,
            peer_updated: self.peer_updated,
            load_state: self.load_state,
        }
    }

    /// The store is well formed.
    pub closed spec fn wf(&self) -> bool {
        &&& self.zsets.wf()
        &&& self.view().wf()
    }

    /// A well-formed store has a well-formed model: no key holds both a
    /// value and a sorted set, and every sorted set is well formed.
    pub proof fn lemma_wf(&self)
        requires
            self.wf(),
        ensures
            self.view().wf(),
    {
    }

    proof fn lemma_wf_members(&self)
        requires
            self.zsets.wf(),
        ensures
            forall|k: Seq<char>| #[trigger] self.zsets.view().contains_key(k) ==> self.zsets.view()[k].wf(),
    {
        assert forall|k: Seq<char>| #[trigger] self.zsets.view().contains_key(k) implies self.zsets.view()[k].wf() by {
            self.zsets.lemma_members_wf(k);
        }
    }

    /// An empty store, before any cluster description or load.
    pub fn new() -> (s: Storage)
        ensures
            s.wf(),
            s.view().kv == Map::<Seq<char>, Seq<char>>::empty(),
            s.view().zsets == Map::<Seq<char>, ZSetModel>::empty(),
            s.view().me == 0,
            s.view().count == 0,
            !s.view().peer_updated,
            s.view().load_state == LOAD_STATE_INIT,
    {
        let s = Storage {
            kv: text_map_new(),
            zsets: ZSetTable::new(),
            me: 0,
            count: 0,
            peer_updated: false,
            load_state: LOAD_STATE_INIT,
        };
        assert(s.view().kv =~= Map::<Seq<char>, Seq<char>>::empty());
        s
    }

    /// `QUERY key`: the plain value under `key`, if any.
    pub fn get_kv(&self, key: &str) -> (r: Option<String>)
        ensures
            r is Some <==> self.view().kv.contains_key(key@),
            r matches Some(v) ==> v@ == self.view().kv[key@],
    {
        text_map_get(&self.kv, key)
    }

    /// `ADD key value`: stores the value and drops a sorted set of that
    /// name. Never fails.
    pub fn insert_kv(&mut self, key: &str, value: &str) -> (r: Result<(), ()>)
        requires
            old(self).wf(),
        ensures
            final(self).wf(),
            final(self).view() == old(self).view().insert_kv(key@, value@),
            r is Ok,
    {
        text_map_insert(&mut self.kv, key.to_owned(), value.to_owned());
        self.zsets.remove(key);
        proof {
            self.lemma_wf_members();
            assert(self.view().kv =~= old(self).view().insert_kv(key@, value@).kv);
            assert(self.view() =~= old(self).view().insert_kv(key@, value@));
        }
        Ok(())
    }

    /// `BATCH`: `ADD` of each pair in turn. Never fails.
    pub fn batch_insert_kv(&mut self, kvs: Vec<InsrtRequest>) -> (r: Result<(), ()>)
        requires
            old(self).wf(),
        ensures
            final(self).wf(),
            final(self).view() == old(self).view().insert_all(pairs_view(kvs@)),
            r is Ok,
    {
        let mut i: usize = 0;
        while i < kvs.len()
            invariant
                i <= kvs.len(),
                self.wf(),
                self.view() == old(self).view().insert_all(pairs_view(kvs@).take(i as int)),
            decreases kvs.len() - i,
        {
            let _ = self.insert_kv(kvs[i].key.as_str(), kvs[i].value.as_str());
            proof {
                let p = pairs_view(kvs@);
                assert(p.take(i + 1).drop_last() =~= p.take(i as int));
                assert(p.take(i + 1).last() == kvs@[i as int]@);
            }
            i = i + 1;
        }
        assert(pairs_view(kvs@).take(kvs.len() as int) =~= pairs_view(kvs@));
        Ok(())
    }

    /// Removes the plain value under `key` (a sorted set of that name
    /// stays). Never fails.
    pub fn remove_key(&mut self, key: &str) -> (r: Result<(), ()>)
        requires
            old(self).wf(),
        ensures
            final(self).wf(),
            final(self).view() == old(self).view().remove_kv(key@),
            r is Ok,
    {
        text_map_remove(&mut self.kv, key);
        assert(self.view() =~= old(self).view().remove_kv(key@));
        Ok(())
    }

    /// `DEL key`: removes the plain value and the sorted set under `key`.
    pub fn del(&mut self, key: &str)
        requires
            old(self).wf(),
        ensures
            final(self).wf(),
            final(self).view() == old(self).view().del(key@),
    {
        text_map_remove(&mut self.kv, key);
        self.zsets.remove(key);
        proof {
            self.lemma_wf_members();
            assert(self.view() =~= old(self).view().del(key@));
        }
    }

    /// The pair `(key, value)` for each of `keys`, in order, that holds a
    /// plain value.
    pub fn list_found(&self, keys: &Vec<String>) -> (r: Vec<InsrtRequest>)
        ensures
            pairs_view(r@) == found(self.view().kv, strings_view(keys@)),
    {
        let mut out: Vec<InsrtRequest> = Vec::new();
        let mut i: usize = 0;
        while i < keys.len()
            invariant
                i <= keys.len(),
                pairs_view(out@) == found(self.view().kv, strings_view(keys@).take(i as int)),
            decreases keys.len() - i,
        {
            let ghost ks = strings_view(keys@);
            assert(ks.take(i + 1).drop_last() =~= ks.take(i as int));
            assert(ks.take(i + 1).last() == keys@[i as int]@);
            let ghost before = out@;
            match self.get_kv(keys[i].as_str()) {
                Some(v) => {
                    out.push(InsrtRequest { key: keys[i].clone(), value: v });
                    assert(pairs_view(out@) =~= pairs_view(before).push((keys@[i as int]@, self.view().kv[keys@[i as int]@])));
                }
                None => {}
            }
            i = i + 1;
        }
        assert(strings_view(keys@).take(keys.len() as int) =~= strings_view(keys@));
        out
    }

    /// `LIST keys`: the pairs for the distinct keys that hold a plain value,
    /// in the order in which the keys first occur.
    pub fn list_keys(&self, keys: &Vec<String>) -> (r: Vec<InsrtRequest>)
        ensures
            pairs_view(r@) == self.view().list(strings_view(keys@)),
    {
        let distinct = distinct_keys(keys);
        self.list_found(&distinct)
    }

    /// `ZADD key score value`: refused (`Err`, nothing changes) when the key
    /// holds a plain value; otherwise gives the member its score in the
    /// sorted set `key`, creating the set if needed.
    pub fn zadd(&mut self, key: &str, score_value: ScoreValue) -> (r: Result<(), ()>)
        requires
            old(self).wf(),
        ensures
            final(self).wf(),
            r is Err <==> old(self).view().zadd_refused(key@),
            r is Err ==> final(self).view() == old(self).view(),
            r is Ok ==> final(self).view() == old(self).view().zadd(key@, score_value.value@, score_value.score),
    {
        if text_map_get(&self.kv, key).is_some() {
            return Err(());
        }
        let ScoreValue { score, value } = score_value;
        proof {
            self.lemma_wf_members();
            if self.zsets.view().contains_key(key@) {
                self.zsets.lemma_members_wf(key@);
            }
            set_or_empty(self.zsets.view(), key@).lemma_add_wf(value@, score);
        }
        self.zsets.add(key, value, score);
        proof {
            assert(self.view() =~= old(self).view().zadd(key@, score_value.value@, score_value.score));
        }
        Ok(())
    }

    /// `ZRANGE key min max`: `None` when there is no sorted set `key`; a
    /// reversed range (`min > max`) holds no member.
    pub fn zrange(&self, key: &str, score_range: ScoreRange) -> (r: Option<Vec<ScoreValue>>)
        requires
            self.wf(),
        ensures
            r is Some <==> self.view().zrange(key@, score_range.min_score, score_range.max_score) is Some,
            r matches Some(v) ==> Some(score_values_view(v@)) == self.view().zrange(key@, score_range.min_score, score_range.max_score),
    {
        self.zsets.range(key, score_range.min_score, score_range.max_score)
    }

    /// `ZRMV key value`: takes the member out of the sorted set `key`;
    /// returns the score it had, if it was there.
    pub fn zrmv(&mut self, key: &str, value: &str) -> (r: Option<u32>)
        requires
            old(self).wf(),
        ensures
            final(self).wf(),
            final(self).view() == old(self).view().zrmv(key@, value@),
            r is Some <==> (old(self).view().zsets.contains_key(key@) && old(self).view().zsets[key@].scores.contains_key(value@)),
            r matches Some(s) ==> s == old(self).view().zsets[key@].scores[value@],
    {
        let r = self.zsets.remove_member(key, value);
        proof {
            self.lemma_wf_members();
            if old(self).view().zsets.contains_key(key@) {
                old(self).zsets.lemma_members_wf(key@);
                old(self).view().zsets[key@].lemma_remove_wf(value@);
            }
            assert(self.view() =~= old(self).view().zrmv(key@, value@));
        }
        r
    }
    /// Takes up one persisted sorted-set row at start-up: the member named
    /// by the row key, with the score of the row value, joins its set --
    /// unless the set's name now holds a plain value (a later `ADD`
    /// replaced the set), in which case the row is stale and is skipped.
    /// Returns whether the row was taken up.
    pub fn load_zset_entry(&mut self, key: &[u8], value: &[u8]) -> (r: bool)
        requires
            old(self).wf(),
            is_row_key(key@),
            value@.len() == 4,
        ensures
            final(self).wf(),
            ({
                let (k, m) = split_row_key(key@);
                let s = vstd::bytes::spec_u32_from_le_bytes(value@);
                &&& r == !old(self).view().zadd_refused(k)
                &&& r ==> final(self).view() == old(self).view().zadd(k, m, s)
                &&& !r ==> final(self).view() == old(self).view()
            }),
    {
        let (zkey, member) = Storage::decode_zset_key(key);
        let score = decode_score(value);
        let res = self.zadd(zkey.as_str(), ScoreValue { score, value: member });
        res.is_ok()
    }

    /// Takes up one persisted key-value row at start-up. Key and value are
    /// the UTF-8 text of the pair, as every row that `ADD` writes is.
    pub fn load_kv_entry(&mut self, key: &[u8], value: &[u8])
        requires
            old(self).wf(),
            valid_utf8(key@),
            valid_utf8(value@),
        ensures
            final(self).wf(),
            final(self).view() == old(self).view().insert_kv(decode_utf8(key@), decode_utf8(value@)),
    {
        assert(key@.subrange(0, key@.len() as int) =~= key@);
        assert(value@.subrange(0, value@.len() as int) =~= value@);
        let k = string_from_utf8(copy_range(key, 0, key.len()));
        let v = string_from_utf8(copy_range(value, 0, value.len()));
        match (k, v) {
            (Some(k), Some(v)) => {
                let _ = self.insert_kv(k.as_str(), v.as_str());
            },
            _ => {
                assert(false);
            },
        }
    }

    /// This node's zero-based index in the cluster.
    pub fn me(&self) -> (r: u32)
        ensures
            r == self.view().me,
    {
        self.me
    }

    /// Whether the cluster description has been taken up.
    pub fn peer_updated(&self) -> (r: bool)
        ensures
            r == self.view().peer_updated,
    {
        self.peer_updated
    }

    /// How many nodes the cluster has (0 before it is known).
    pub fn count(&self) -> (r: u64)
        ensures
            r == self.view().count,
    {
        self.count
    }

    /// Where the start-up load stands.
    pub fn load_state(&self) -> (r: u32)
        ensures
            r == self.view().load_state,
    {
        self.load_state
    }

    /// The node that serves `key`: `None` when it is this node, else the
    /// index of the peer.
    pub fn locate(&self, key: &str) -> (r: Option<usize>)
        ensures
            r == (if shard_of(key@, self.view().count) as u32 == self.view().me {
                None::<usize>
            } else {
                Some((shard_of(key@, self.view().count) as u32) as usize)
            }),
    {
        let shard = get_shard(key, self.count) as u32;
        if shard == self.me {
            None
        } else {
            Some(shard as usize)
        }
    }

    /// Claims the right to take up the cluster description: succeeds (and
    /// marks it taken) only the first time.
    pub fn begin_peer_update(&mut self) -> (r: bool)
        requires
            old(self).wf(),
        ensures
            final(self).wf(),
            r == !old(self).view().peer_updated,
            final(self).view() == (StoreModel { peer_updated: true, ..old(self).view() }),
    {
        if self.peer_updated {
            false
        } else {
            self.peer_updated = true;
            true
        }
    }

    /// Takes up the cluster description: the peers' names and this node's
    /// one-based position among them.
    pub fn update_peers(&mut self, peers: &Vec<String>, me: u32)
        requires
            old(self).wf(),
            me >= 1,
        ensures
            final(self).wf(),
            final(self).view() == (StoreModel {
                peer_updated: true,
                me: (me - 1) as u32,
                count: peers@.len() as u64,
                ..old(self).view()
            }),
    {
        self.peer_updated = true;
        self.me = me - 1;
        self.count = peers.len() as u64;
    }

    /// Claims the start-up load: succeeds (and marks it running) only when
    /// no load has begun.
    pub fn begin_loading(&mut self) -> (r: bool)
        requires
            old(self).wf(),
        ensures
            final(self).wf(),
            r == (old(self).view().load_state == LOAD_STATE_INIT),
            final(self).view() == (if r {
                StoreModel { load_state: LOAD_STATE_LOADING, ..old(self).view() }
            } else {
                old(self).view()
            }),
    {
        if self.load_state == LOAD_STATE_INIT {
            self.load_state = LOAD_STATE_LOADING;
            true
        } else {
            false
        }
    }

    /// Marks the start-up load over: completed, or failed.
    pub fn finish_loading(&mut self, loaded: bool)
        requires
            old(self).wf(),
        ensures
            final(self).wf(),
            final(self).view() == (StoreModel {
                load_state: if loaded {
                    LOAD_STATE_LOADED
                } else {
                    LOAD_STATE_FAILED
                },
                ..old(self).view()
            }),
    {
        let state = if loaded {
            LOAD_STATE_LOADED
        } else {
            LOAD_STATE_FAILED
        };
        self.load_state = state;
    }
}

/// The keys in order of first occurrence, each once.
pub fn distinct_keys(keys: &Vec<String>) -> (r: Vec<String>)
    ensures
        strings_view(r@) == dedup(strings_view(keys@)),
{
    let mut out: Vec<String> = Vec::new();
    let mut i: usize = 0;
    while i < keys.len()
        invariant
            i <= keys.len(),
            strings_view(out@) == dedup(strings_view(keys@).take(i as int)),
        decreases keys.len() - i,
    {
        let ghost ks = strings_view(keys@);
        assert(ks.take(i + 1).drop_last() =~= ks.take(i as int));
        assert(ks.take(i + 1).last() == keys@[i as int]@);
        let mut seen = false;
        let mut j: usize = 0;
        while j < out.len()
            invariant
                j <= out.len(),
                i < keys.len(),
                seen == (exists|l: int| 0 <= l < j && out@[l]@ == keys@[i as int]@),
            decreases out.len() - j,
        {
            if out[j] == keys[i] {
                seen = true;
            }
            j = j + 1;
        }
        proof {
            let d = strings_view(out@);
            if seen {
                let l = choose|l: int| 0 <= l < j && out@[l]@ == keys@[i as int]@;
                assert(d[l] == keys@[i as int]@);
            } else {
                assert(!d.contains(keys@[i as int]@)) by {
                    if d.contains(keys@[i as int]@) {
                        let l = choose|l: int| 0 <= l < d.len() && d[l] == keys@[i as int]@;
                        assert(out@[l]@ == keys@[i as int]@);
                    }
                }
            }
        }
        if !seen {
            let ghost before = out@;
            out.push(keys[i].clone());
            assert(strings_view(out@) =~= strings_view(before).push(keys@[i as int]@));
        }
        i = i + 1;
    }
    assert(strings_view(keys@).take(keys.len() as int) =~= strings_view(keys@));
    out
}

} // verus!
