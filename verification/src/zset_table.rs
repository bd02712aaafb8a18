//! The table of sorted sets, keyed by name: a fixed number of shards, each a
//! list of named sets, the shard of a name chosen by its hash.

use crate::dto::ScoreValue;
use crate::shard::default_hash_of_str;
use crate::shard::hash_key;
use crate::text::str_eq;
use crate::zset::score_values_view;
use crate::zset::ZSet;
use crate::zset::ZSetModel;
use vstd::prelude::*;

verus! {

/// How many shards the table has.
pub const SHARD_COUNT: usize = 256;

/// The mask that picks a shard out of a hash.
pub const SHARD_MASK: usize = 255;

/// The shard of a sorted set's name, as a spec.
pub open spec fn zset_shard_of(key: Seq<char>) -> usize {
    (default_hash_of_str(key) as usize) & SHARD_MASK
}

proof fn lemma_masked_below_count(h: usize)
    ensures
        h & 255usize < 256,
{
    assert(h & 255usize < 256) by (bit_vector);
}

/// The shard that holds the sorted set named `key`: the low bits of the
/// key's hash.
pub fn get_shard(key: &str) -> (s: usize)
    ensures
        s == zset_shard_of(key@),
        s < SHARD_COUNT,
{
    let h = hash_key(key) as usize;
    proof {
        lemma_masked_below_count(h);
    }
    h & SHARD_MASK
}

/// A sorted set and its name.
pub struct NamedZSet {
    key: String,
    zset: ZSet,
}

/// Whether a shard holds a set named `k`.
pub closed spec fn chain_has(chain: Seq<NamedZSet>, k: Seq<char>) -> bool {
    exists|i: int| 0 <= i < chain.len() && #[trigger] chain[i].key@ == k
}

/// Where in a shard the set named `k` is.
pub closed spec fn chain_pos(chain: Seq<NamedZSet>, k: Seq<char>) -> int {
    choose|i: int| 0 <= i < chain.len() && #[trigger] chain[i].key@ == k
}

/// The set named `k` in `m`, or an empty set when there is none.
pub open spec fn set_or_empty(m: Map<Seq<char>, ZSetModel>, k: Seq<char>) -> ZSetModel {
    if m.contains_key(k) {
        m[k]
    } else {
        ZSetModel::empty()
    }
}

impl ZSetTable {
    /// Replacing the set at position `i` of shard `b` by a well-formed set
    /// under the same name keeps the table well formed.
    proof fn lemma_after_update(&self, old_t: ZSetTable, b: int, i: int)
        requires
            old_t.wf(),
            0 <= b < SHARD_COUNT,
            0 <= i < old_t.shards@[b]@.len(),
            self.shards@.len() == SHARD_COUNT,
            forall|c: int| 0 <= c < SHARD_COUNT && c != b ==> self.shards@[c] == old_t.shards@[c],
            self.shards@[b]@.len() == old_t.shards@[b]@.len(),
            forall|j: int| 0 <= j < self.shards@[b]@.len() && j != i ==> self.shards@[b]@[j] == old_t.shards@[b]@[j],
            self.shards@[b]@[i].key@ == old_t.shards@[b]@[i].key@,
            self.shards@[b]@[i].zset.wf(),
        ensures
            self.wf(),
    {
        assert forall|c: int, j: int| 0 <= c < SHARD_COUNT && 0 <= j < self.shards@[c]@.len() implies {
            &&& zset_shard_of(#[trigger] self.shards@[c]@[j].key@) == c
            &&& self.shards@[c]@[j].zset.wf()
        } by {
            if c != b || j != i {
                assert(self.shards@[c]@[j] == old_t.shards@[c]@[j]);
            }
            assert(old_t.shards@[c]@[j].key@ == self.shards@[c]@[j].key@);
        }
        assert forall|c: int, j: int, l: int|
            0 <= c < SHARD_COUNT && 0 <= j < self.shards@[c]@.len() && 0 <= l < self.shards@[c]@.len() && j != l
            implies #[trigger] self.shards@[c]@[j].key@ != #[trigger] self.shards@[c]@[l].key@ by {
            assert(old_t.shards@[c]@[j].key@ == self.shards@[c]@[j].key@);
            assert(old_t.shards@[c]@[l].key@ == self.shards@[c]@[l].key@);
        }
    }

    /// After such a replacement, every other name keeps its set.
    proof fn lemma_after_update_other(&self, old_t: ZSetTable, b: int, i: int, k: Seq<char>)
        requires
            old_t.wf(),
            self.wf(),
            0 <= b < SHARD_COUNT,
            0 <= i < old_t.shards@[b]@.len(),
            forall|c: int| 0 <= c < SHARD_COUNT && c != b ==> self.shards@[c] == old_t.shards@[c],
            self.shards@[b]@.len() == old_t.shards@[b]@.len(),
            forall|j: int| 0 <= j < self.shards@[b]@.len() && j != i ==> self.shards@[b]@[j] == old_t.shards@[b]@[j],
            self.shards@[b]@[i].key@ == old_t.shards@[b]@[i].key@,
            k != old_t.shards@[b]@[i].key@,
        ensures
            self.view().contains_key(k) == old_t.view().contains_key(k),
            self.view().contains_key(k) ==> self.view()[k] == old_t.view()[k],
    {
        let c = zset_shard_of(k) as int;
        lemma_masked_below_count(default_hash_of_str(k) as usize);
        if old_t.has(k) {
            let j = chain_pos(old_t.chain(k), k);
            old_t.lemma_lookup(k, j);
            if c == b {
                assert(j != i);
            }
            assert(self.chain(k)[j] == old_t.chain(k)[j]);
            self.lemma_lookup(k, j);
        } else if self.has(k) {
            let j = chain_pos(self.chain(k), k);
            if c == b {
                assert(j != i);
            }
            assert(self.chain(k)[j] == old_t.chain(k)[j]);
            assert(old_t.has(k));
        }
    }

    /// Appending a set under a name that shard `b` lacks keeps the table well
    /// formed.
    proof fn lemma_after_push(&self, old_t: ZSetTable, b: int)
        requires
            old_t.wf(),
            0 <= b < SHARD_COUNT,
            self.shards@.len() == SHARD_COUNT,
            forall|c: int| 0 <= c < SHARD_COUNT && c != b ==> self.shards@[c] == old_t.shards@[c],
            self.shards@[b]@.len() == old_t.shards@[b]@.len() + 1,
            forall|j: int| 0 <= j < old_t.shards@[b]@.len() ==> self.shards@[b]@[j] == old_t.shards@[b]@[j],
            zset_shard_of(self.shards@[b]@.last().key@) == b,
            !chain_has(old_t.shards@[b]@, self.shards@[b]@.last().key@),
            self.shards@[b]@.last().zset.wf(),
        ensures
            self.wf(),
    {
        let n = old_t.shards@[b]@.len() as int;
        assert forall|c: int, j: int| 0 <= c < SHARD_COUNT && 0 <= j < self.shards@[c]@.len() implies {
            &&& zset_shard_of(#[trigger] self.shards@[c]@[j].key@) == c
            &&& self.shards@[c]@[j].zset.wf()
        } by {
            if c != b || j != n {
                assert(self.shards@[c]@[j] == old_t.shards@[c]@[j]);
            }
        }
        assert forall|c: int, j: int, l: int|
            0 <= c < SHARD_COUNT && 0 <= j < self.shards@[c]@.len() && 0 <= l < self.shards@[c]@.len() && j != l
            implies #[trigger] self.shards@[c]@[j].key@ != #[trigger] self.shards@[c]@[l].key@ by {
            if c == b && (j == n || l == n) {
                let other = if j == n { l } else { j };
                assert(self.shards@[b]@[other] == old_t.shards@[b]@[other]);
            } else {
                assert(self.shards@[c]@[j] == old_t.shards@[c]@[j]);
                assert(self.shards@[c]@[l] == old_t.shards@[c]@[l]);
            }
        }
    }

    /// After such an append, every other name keeps its set.
    proof fn lemma_after_push_other(&self, old_t: ZSetTable, b: int, k: Seq<char>)
        requires
            old_t.wf(),
            self.wf(),
            0 <= b < SHARD_COUNT,
            forall|c: int| 0 <= c < SHARD_COUNT && c != b ==> self.shards@[c] == old_t.shards@[c],
            self.shards@[b]@.len() == old_t.shards@[b]@.len() + 1,
            forall|j: int| 0 <= j < old_t.shards@[b]@.len() ==> self.shards@[b]@[j] == old_t.shards@[b]@[j],
            k != self.shards@[b]@.last().key@,
        ensures
            self.view().contains_key(k) == old_t.view().contains_key(k),
            self.view().contains_key(k) ==> self.view()[k] == old_t.view()[k],
    {
        let c = zset_shard_of(k) as int;
        let n = old_t.shards@[b]@.len() as int;
        lemma_masked_below_count(default_hash_of_str(k) as usize);
        if old_t.has(k) {
            let j = chain_pos(old_t.chain(k), k);
            old_t.lemma_lookup(k, j);
            assert(self.chain(k)[j] == old_t.chain(k)[j]);
            self.lemma_lookup(k, j);
        } else if self.has(k) {
            let j = chain_pos(self.chain(k), k);
            if c == b {
                assert(j != n);
            }
            assert(self.chain(k)[j] == old_t.chain(k)[j]);
            assert(old_t.has(k));
        }
    }
}

/// The sorted sets of the table, by name: 256 shards picked by the low bits
/// of the name's hash, each a chain of named sets.
///
/// The sets are not kept in a `LockFreeCuckooHash` of sets: that map hands
/// its values out only by shared reference (`get`, `get_or_insert` and
/// `remove_with_guard` all return `&V`, and `V` is not moved back out), so a
/// set kept there could change only through a lock inside it, and Verus
/// cannot reason about what such a lock guards.
pub struct ZSetTable {
    shards: Vec<Vec<NamedZSet>>,
}

impl ZSetTable {
    /// The shard that a name belongs to.
    pub closed spec fn chain(&self, k: Seq<char>) -> Seq<NamedZSet> {
        self.shards@[zset_shard_of(k) as int]@
    }

    /// Whether the table holds a set named `k`.
    pub closed spec fn has(&self, k: Seq<char>) -> bool {
        chain_has(self.chain(k), k)
    }

    /// The set named `k`.
    pub closed spec fn get(&self, k: Seq<char>) -> ZSetModel {
        self.chain(k)[chain_pos(self.chain(k), k)].zset@
    }

    /// The table as a map from name to sorted set.
    pub closed spec fn view(&self) -> Map<Seq<char>, ZSetModel> {
        Map::new(|k: Seq<char>| self.has(k), |k: Seq<char>| self.get(k))
    }

    /// Each set sits in the shard of its name, names are unique within a
    /// shard, and every set is well formed.
    pub closed spec fn wf(&self) -> bool {
        &&& self.shards@.len() == SHARD_COUNT
        &&& forall|b: int, i: int|
            0 <= b < SHARD_COUNT && 0 <= i < self.shards@[b]@.len() ==> {
                &&& zset_shard_of(#[trigger] self.shards@[b]@[i].key@) == b
                &&& self.shards@[b]@[i].zset.wf()
            }
        &&& forall|b: int, i: int, j: int|
            0 <= b < SHARD_COUNT && 0 <= i < self.shards@[b]@.len() && 0 <= j
                < self.shards@[b]@.len() && i != j ==> #[trigger] self.shards@[b]@[i].key@
                != #[trigger] self.shards@[b]@[j].key@
    }

    /// Every set of a well-formed table is well formed.
    pub proof fn lemma_members_wf(&self, k: Seq<char>)
        requires
            self.wf(),
            self.view().contains_key(k),
        ensures
            self.view()[k].wf(),
    {
        let b = zset_shard_of(k) as int;
        lemma_masked_below_count(default_hash_of_str(k) as usize);
        let i = chain_pos(self.chain(k), k);
        assert(self.shards@[b]@[i].zset.wf());
    }

    /// An empty table.
    pub fn new() -> (t: ZSetTable)
        ensures
            t.wf(),
            t.view() == Map::<Seq<char>, ZSetModel>::empty(),
    {
        let mut shards: Vec<Vec<NamedZSet>> = Vec::new();
        let mut n: usize = 0;
        while n < SHARD_COUNT
            invariant
                n <= SHARD_COUNT,
                shards@.len() == n,
                forall|b: int| 0 <= b < n ==> #[trigger] shards@[b]@.len() == 0,
            decreases SHARD_COUNT - n,
        {
            shards.push(Vec::new());
            n = n + 1;
        }
        let t = ZSetTable { shards };
        assert(t.view() =~= Map::<Seq<char>, ZSetModel>::empty()) by {
            assert forall|k: Seq<char>| !t.has(k) by {
                lemma_masked_below_count(default_hash_of_str(k) as usize);
            }
        }
        t
    }

    /// The position of the set named `key` in shard `b`, if it is there.
    fn find(&self, b: usize, key: &str) -> (r: Option<usize>)
        requires
            b < self.shards@.len(),
        ensures
            r matches Some(i) ==> i < self.shards@[b as int]@.len() && self.shards@[b as int]@[i as int].key@ == key@,
            r is None ==> !chain_has(self.shards@[b as int]@, key@),
    {
        let chain = &self.shards[b];
        let mut i: usize = 0;
        while i < chain.len()
            invariant
                chain@ == self.shards@[b as int]@,
                i <= chain.len(),
                forall|j: int| 0 <= j < i ==> chain@[j].key@ != key@,
            decreases chain.len() - i,
        {
            if str_eq(chain[i].key.as_str(), key) {
                return Some(i);
            }
            i = i + 1;
        }
        None
    }
    /// In a well-formed table, the set found at position `i` of the shard of
    /// `k` under the name `k` is the table's set `k`.
    proof fn lemma_lookup(&self, k: Seq<char>, i: int)
        requires
            self.wf(),
            0 <= i < self.chain(k).len(),
            self.chain(k)[i].key@ == k,
        ensures
            self.has(k),
            self.get(k) == self.chain(k)[i].zset@,
            self.view().contains_key(k),
            self.view()[k] == self.chain(k)[i].zset@,
    {
        let b = zset_shard_of(k) as int;
        lemma_masked_below_count(default_hash_of_str(k) as usize);
        assert(self.chain(k)[i].key@ == k);
        let j = chain_pos(self.chain(k), k);
        assert(0 <= j < self.chain(k).len() && self.chain(k)[j].key@ == k);
        assert(self.shards@[b]@[i].key@ == self.shards@[b]@[j].key@);
        assert(i == j);
    }

    /// Whether the table holds a set named `key`.
    pub fn contains(&self, key: &str) -> (r: bool)
        requires
            self.wf(),
        ensures
            r == self.view().contains_key(key@),
    {
        let b = get_shard(key);
        match self.find(b, key) {
            Some(i) => {
                proof {
                    self.lemma_lookup(key@, i as int);
                }
                true
            }
            None => false,
        }
    }

    /// `ZRANGE` on the set named `key`: `None` when there is no such set.
    pub fn range(&self, key: &str, min: u32, max: u32) -> (r: Option<Vec<ScoreValue>>)
        requires
            self.wf(),
        ensures
            r is Some <==> self.view().contains_key(key@),
            r matches Some(v) ==> score_values_view(v@) == self.view()[key@].range(min, max),
    {
        let b = get_shard(key);
        match self.find(b, key) {
            Some(i) => {
                proof {
                    self.lemma_lookup(key@, i as int);
                }
                Some(self.shards[b][i].zset.range(min, max))
            }
            None => None,
        }
    }

    /// `ZADD` on the set named `key`, which is created empty first if there
    /// is none.
    pub fn add(&mut self, key: &str, value: String, score: u32)
        requires
            old(self).wf(),
        ensures
            final(self).wf(),
            final(self).view() == old(self).view().insert(
                key@,
                set_or_empty(old(self).view(), key@).add(value@, score),
            ),
    {
        let b = get_shard(key);
        let ghost k = key@;
        let ghost z_new = set_or_empty(old(self).view(), k).add(value@, score);
        match self.find(b, key) {
            Some(i) => {
                proof {
                    self.lemma_lookup(k, i as int);
                    self.lemma_members_wf(k);
                }
                self.shards[b][i].zset.add(value, score);
                proof {
                    assert(self.shards@[b as int]@[i as int].zset@ == z_new);
                    self.lemma_after_update(*old(self), b as int, i as int);
                    self.lemma_lookup(k, i as int);
                    let target = old(self).view().insert(k, z_new);
                    assert forall|k2: Seq<char>| #[trigger] self.view().dom().contains(k2) == target.dom().contains(k2) by {
                        if k2 != k {
                            self.lemma_after_update_other(*old(self), b as int, i as int, k2);
                        }
                    }
                    assert(self.view().dom() =~= target.dom());
                    assert forall|k2: Seq<char>| #[trigger] self.view().contains_key(k2) implies self.view()[k2] == target[k2] by {
                        if k2 != k {
                            self.lemma_after_update_other(*old(self), b as int, i as int, k2);
                        }
                    }
                    assert(self.view() =~= target);
                }
            }
            None => {
                let mut z = ZSet::new();
                assert(ZSetModel::empty() == set_or_empty(old(self).view(), k)) by {
                    assert(!self.has(k));
                }
                z.add(value, score);
                let entry = NamedZSet { key: key.to_owned(), zset: z };
                self.shards[b].push(entry);
                proof {
                    let i = self.shards@[b as int]@.len() - 1;
                    self.lemma_after_push(*old(self), b as int);
                    self.lemma_lookup(k, i);
                    let target = old(self).view().insert(k, z_new);
                    assert forall|k2: Seq<char>| #[trigger] self.view().dom().contains(k2) == target.dom().contains(k2) by {
                        if k2 != k {
                            self.lemma_after_push_other(*old(self), b as int, k2);
                        }
                    }
                    assert(self.view().dom() =~= target.dom());
                    assert forall|k2: Seq<char>| #[trigger] self.view().contains_key(k2) implies self.view()[k2] == target[k2] by {
                        if k2 != k {
                            self.lemma_after_push_other(*old(self), b as int, k2);
                        }
                    }
                    assert(self.view() =~= target);
                }
            }
        }
    }
    /// `ZRMV` on the set named `key`: takes member `value` out of it, if
    /// both exist; returns the score the member had.
    pub fn remove_member(&mut self, key: &str, value: &str) -> (r: Option<u32>)
        requires
            old(self).wf(),
        ensures
            final(self).wf(),
            old(self).view().contains_key(key@) ==> final(self).view() == old(self).view().insert(
                key@,
                old(self).view()[key@].remove(value@),
            ),
            !old(self).view().contains_key(key@) ==> final(self).view() == old(self).view(),
            r is Some <==> (old(self).view().contains_key(key@) && old(self).view()[key@].scores.contains_key(value@)),
            r matches Some(s) ==> s == old(self).view()[key@].scores[value@],
    {
        let b = get_shard(key);
        let ghost k = key@;
        match self.find(b, key) {
            Some(i) => {
                proof {
                    self.lemma_lookup(k, i as int);
                    self.lemma_members_wf(k);
                }
                let ghost z_new = old(self).view()[k].remove(value@);
                let r = self.shards[b][i].zset.remove(value);
                proof {
                    self.lemma_after_update(*old(self), b as int, i as int);
                    self.lemma_lookup(k, i as int);
                    let target = old(self).view().insert(k, z_new);
                    assert forall|k2: Seq<char>| #[trigger] self.view().dom().contains(k2) == target.dom().contains(k2) by {
                        if k2 != k {
                            self.lemma_after_update_other(*old(self), b as int, i as int, k2);
                        }
                    }
                    assert(self.view().dom() =~= target.dom());
                    assert forall|k2: Seq<char>| #[trigger] self.view().contains_key(k2) implies self.view()[k2] == target[k2] by {
                        if k2 != k {
                            self.lemma_after_update_other(*old(self), b as int, i as int, k2);
                        }
                    }
                    assert(self.view() =~= target);
                }
                r
            }
            None => None,
        }
    }

    /// Drops the set named `key`; returns whether there was one.
    pub fn remove(&mut self, key: &str) -> (r: bool)
        requires
            old(self).wf(),
        ensures
            final(self).wf(),
            final(self).view() == old(self).view().remove(key@),
            r == old(self).view().contains_key(key@),
    {
        let b = get_shard(key);
        let ghost k = key@;
        match self.find(b, key) {
            Some(i) => {
                proof {
                    self.lemma_lookup(k, i as int);
                }
                let _gone = self.shards[b].swap_remove(i);
                proof {
                    self.lemma_after_swap_remove(*old(self), b as int, i as int);
                    let target = old(self).view().remove(k);
                    assert forall|k2: Seq<char>| #[trigger] self.view().dom().contains(k2) == target.dom().contains(k2) by {
                        self.lemma_after_swap_remove_other(*old(self), b as int, i as int, k2);
                    }
                    assert(self.view().dom() =~= target.dom());
                    assert forall|k2: Seq<char>| #[trigger] self.view().contains_key(k2) implies self.view()[k2] == target[k2] by {
                        self.lemma_after_swap_remove_other(*old(self), b as int, i as int, k2);
                    }
                    assert(self.view() =~= target);
                }
                true
            }
            None => {
                assert(old(self).view() =~= old(self).view().remove(k));
                false
            }
        }
    }
}


impl ZSetTable {
    /// Taking the set at position `i` out of shard `b` (the last one moving
    /// into its place) keeps the table well formed.
    proof fn lemma_after_swap_remove(&self, old_t: ZSetTable, b: int, i: int)
        requires
            old_t.wf(),
            0 <= b < SHARD_COUNT,
            0 <= i < old_t.shards@[b]@.len(),
            self.shards@.len() == SHARD_COUNT,
            forall|c: int| 0 <= c < SHARD_COUNT && c != b ==> self.shards@[c] == old_t.shards@[c],
            self.shards@[b]@ == old_t.shards@[b]@.update(i, old_t.shards@[b]@.last()).drop_last(),
        ensures
            self.wf(),
    {
        let n = old_t.shards@[b]@.len() - 1;
        assert forall|c: int, j: int| 0 <= c < SHARD_COUNT && 0 <= j < self.shards@[c]@.len() implies {
            &&& zset_shard_of(#[trigger] self.shards@[c]@[j].key@) == c
            &&& self.shards@[c]@[j].zset.wf()
        } by {
            if c == b && j == i {
                assert(self.shards@[c]@[j] == old_t.shards@[c]@[n]);
            } else {
                assert(self.shards@[c]@[j] == old_t.shards@[c]@[j]);
            }
        }
        assert forall|c: int, j: int, l: int|
            0 <= c < SHARD_COUNT && 0 <= j < self.shards@[c]@.len() && 0 <= l < self.shards@[c]@.len() && j != l
            implies #[trigger] self.shards@[c]@[j].key@ != #[trigger] self.shards@[c]@[l].key@ by {
            let j2 = if c == b && j == i { n } else { j };
            let l2 = if c == b && l == i { n } else { l };
            assert(self.shards@[c]@[j] == old_t.shards@[c]@[j2]);
            assert(self.shards@[c]@[l] == old_t.shards@[c]@[l2]);
        }
    }

    /// After such a removal, the removed name is gone and every other name
    /// keeps its set.
    proof fn lemma_after_swap_remove_other(&self, old_t: ZSetTable, b: int, i: int, k: Seq<char>)
        requires
            old_t.wf(),
            self.wf(),
            0 <= b < SHARD_COUNT,
            0 <= i < old_t.shards@[b]@.len(),
            forall|c: int| 0 <= c < SHARD_COUNT && c != b ==> self.shards@[c] == old_t.shards@[c],
            self.shards@[b]@ == old_t.shards@[b]@.update(i, old_t.shards@[b]@.last()).drop_last(),
        ensures
            k == old_t.shards@[b]@[i].key@ ==> !self.view().contains_key(k),
            k != old_t.shards@[b]@[i].key@ ==> {
                &&& self.view().contains_key(k) == old_t.view().contains_key(k)
                &&& self.view().contains_key(k) ==> self.view()[k] == old_t.view()[k]
            },
    {
        let c = zset_shard_of(k) as int;
        let n = old_t.shards@[b]@.len() - 1;
        let gone = old_t.shards@[b]@[i].key@;
        lemma_masked_below_count(default_hash_of_str(k) as usize);
        if self.has(k) {
            let j = chain_pos(self.chain(k), k);
            let j2 = if c == b && j == i { n } else { j };
            assert(self.chain(k)[j] == old_t.chain(k)[j2]);
            old_t.lemma_lookup(k, j2);
            if k == gone {
                assert(zset_shard_of(gone) == b);
                assert(j2 == i);
                assert(false);
            }
            self.lemma_lookup(k, j);
        } else if old_t.has(k) && k != gone {
            let j = chain_pos(old_t.chain(k), k);
            old_t.lemma_lookup(k, j);
            if c == b {
                assert(j != i);
                let j3 = if j == n { i } else { j };
                assert(self.chain(k)[j3] == old_t.chain(k)[j]);
            } else {
                assert(self.chain(k)[j] == old_t.chain(k)[j]);
            }
        }
    }
}

} // verus!
