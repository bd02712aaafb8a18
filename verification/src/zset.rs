//! Sorted sets: members (strings) with a score each, read back by score
//! range in ascending score order.

use crate::cuckoo::score_map_contents;
use crate::cuckoo::score_map_get;
use crate::cuckoo::score_map_insert;
use crate::cuckoo::score_map_new;
use crate::cuckoo::score_map_remove;
use crate::dto::ScoreValue;
use lockfree_cuckoohash::LockFreeCuckooHash;
use std::collections::BTreeMap;
use vstd::prelude::*;

verus! {

/// The mathematical content of a sorted set.
///
/// `scores` gives each member its score; `buckets` gives, for a score, the
/// members that have it, in the order in which they took that score.
pub struct ZSetModel {
    pub scores: Map<Seq<char>, u32>,
    pub buckets: Map<u32, Seq<Seq<char>>>,
}

/// The members of a bucket as `(score, member)` pairs.
pub open spec fn tag_with_score(s: u32, members: Seq<Seq<char>>) -> Seq<(u32, Seq<char>)> {
    members.map_values(|m: Seq<char>| (s, m))
}

/// A sequence without the (single) occurrence of `v`.
pub open spec fn without(members: Seq<Seq<char>>, v: Seq<char>) -> Seq<Seq<char>> {
    members.remove(members.index_of(v))
}

impl ZSetModel {
    pub open spec fn empty() -> ZSetModel {
        ZSetModel { scores: Map::empty(), buckets: Map::empty() }
    }

    /// The members that have score `s` (none when the score has no bucket).
    pub open spec fn bucket(self, s: u32) -> Seq<Seq<char>> {
        if self.buckets.contains_key(s) {
            self.buckets[s]
        } else {
            Seq::empty()
        }
    }

    /// Every member sits in the bucket of its score, exactly once, and a
    /// bucket holds only members with that score.
    pub open spec fn wf(self) -> bool {
        &&& forall|v: Seq<char>| #[trigger]
            self.scores.contains_key(v) ==> self.bucket(self.scores[v]).contains(v)
        &&& forall|s: u32, i: int|
            0 <= i < self.bucket(s).len() ==> {
                &&& self.scores.contains_key(#[trigger] self.bucket(s)[i])
                &&& self.scores[self.bucket(s)[i]] == s
            }
        &&& forall|s: u32| #[trigger] self.bucket(s).no_duplicates()
    }

    /// Adding `v` with score `s`: a new member goes to the end of bucket `s`;
    /// a member whose score changes leaves its old bucket and goes to the end
    /// of bucket `s`; a member that already has score `s` stays where it is.
    pub open spec fn add(self, v: Seq<char>, s: u32) -> ZSetModel {
        if self.scores.contains_key(v) {
            let old_s = self.scores[v];
            if old_s == s {
                self
            } else {
                ZSetModel {
                    scores: self.scores.insert(v, s),
                    buckets: self.buckets.insert(old_s, without(self.bucket(old_s), v)).insert(
                        s,
                        self.bucket(s).push(v),
                    ),
                }
            }
        } else {
            ZSetModel {
                scores: self.scores.insert(v, s),
                buckets: self.buckets.insert(s, self.bucket(s).push(v)),
            }
        }
    }

    /// Removing `v`: it leaves `scores` and its bucket; nothing else changes.
    pub open spec fn remove(self, v: Seq<char>) -> ZSetModel {
        if self.scores.contains_key(v) {
            let old_s = self.scores[v];
            ZSetModel {
                scores: self.scores.remove(v),
                buckets: self.buckets.insert(old_s, without(self.bucket(old_s), v)),
            }
        } else {
            self
        }
    }

    /// The members with a score in `[min, hi]`, bucket by bucket in ascending
    /// score order, each bucket in its own order.
    pub open spec fn range_upto(self, min: u32, hi: int) -> Seq<(u32, Seq<char>)>
        decreases hi + 1 - min,
    {
        if hi < min {
            Seq::empty()
        } else {
            self.range_upto(min, hi - 1) + tag_with_score(hi as u32, self.bucket(hi as u32))
        }
    }

    /// What `ZRANGE min max` returns.
    pub open spec fn range(self, min: u32, max: u32) -> Seq<(u32, Seq<char>)> {
        self.range_upto(min, max as int)
    }
}


/// Taking the single occurrence of `v` out of a duplicate-free sequence
/// keeps every other element, and nothing else, and keeps it free of
/// duplicates.
pub proof fn lemma_without(members: Seq<Seq<char>>, v: Seq<char>)
    requires
        members.no_duplicates(),
        members.contains(v),
    ensures
        without(members, v).no_duplicates(),
        without(members, v).len() == members.len() - 1,
        forall|u: Seq<char>| #[trigger]
            without(members, v).contains(u) <==> (members.contains(u) && u != v),
{
    let i = members.index_of(v);
    let w = without(members, v);
    assert(0 <= i < members.len() && members[i] == v);
    members.remove_ensures(i);
    assert forall|u: Seq<char>| #[trigger] w.contains(u) implies (members.contains(u) && u != v) by {
        let j = choose|j: int| 0 <= j < w.len() && w[j] == u;
        if j < i {
            assert(members[j] == u);
        } else {
            assert(members[j + 1] == u);
        }
    }
    assert forall|u: Seq<char>| (members.contains(u) && u != v) implies #[trigger] w.contains(u) by {
        let j = choose|j: int| 0 <= j < members.len() && members[j] == u;
        if j < i {
            assert(w[j] == u);
        } else {
            assert(j != i);
            assert(w[j - 1] == u);
        }
    }
    assert forall|a: int, b: int| 0 <= a < w.len() && 0 <= b < w.len() && a != b implies w[a] != w[b] by {
        let a2 = if a < i { a } else { a + 1 };
        let b2 = if b < i { b } else { b + 1 };
        assert(w[a] == members[a2]);
        assert(w[b] == members[b2]);
    }
}

impl ZSetModel {
    /// Adding keeps a sorted set well formed.
    pub proof fn lemma_add_wf(self, v: Seq<char>, s: u32)
        requires
            self.wf(),
        ensures
            self.add(v, s).wf(),
    {
        let n = self.add(v, s);
        if self.scores.contains_key(v) {
            let old_s = self.scores[v];
            if old_s != s {
                lemma_without(self.bucket(old_s), v);
                assert(!self.bucket(s).contains(v)) by {
                    if self.bucket(s).contains(v) {
                        let j = choose|j: int| 0 <= j < self.bucket(s).len() && self.bucket(s)[j] == v;
                        assert(self.scores[self.bucket(s)[j]] == s);
                    }
                }
                assert(n.bucket(s) == self.bucket(s).push(v));
                assert(n.bucket(old_s) == without(self.bucket(old_s), v));
                assert forall|u: Seq<char>| #[trigger] n.scores.contains_key(u) implies n.bucket(n.scores[u]).contains(u) by {
                    if u != v {
                        let t = self.scores[u];
                        assert(self.bucket(t).contains(u));
                        if t == s {
                            let j = choose|j: int| 0 <= j < self.bucket(t).len() && self.bucket(t)[j] == u;
                            assert(n.bucket(s)[j] == u);
                        }
                    } else {
                        assert(n.bucket(s)[self.bucket(s).len() as int] == v);
                    }
                }
                assert forall|t: u32, i: int| 0 <= i < n.bucket(t).len() implies {
                    &&& n.scores.contains_key(#[trigger] n.bucket(t)[i])
                    &&& n.scores[n.bucket(t)[i]] == t
                } by {
                    let u = n.bucket(t)[i];
                    if t == s {
                        if i < self.bucket(s).len() {
                            assert(self.bucket(s)[i] == u);
                            assert(self.scores[u] == s);
                        }
                    } else if t == old_s {
                        assert(without(self.bucket(old_s), v).contains(u));
                        let j = choose|j: int| 0 <= j < self.bucket(old_s).len() && self.bucket(old_s)[j] == u;
                        assert(self.scores[self.bucket(old_s)[j]] == old_s);
                    } else {
                        assert(self.bucket(t)[i] == u);
                    }
                }
                assert forall|t: u32| #[trigger] n.bucket(t).no_duplicates() by {
                    if t == s {
                        assert(self.bucket(s).no_duplicates());
                        let b = n.bucket(s);
                        assert forall|a: int, c: int| 0 <= a < b.len() && 0 <= c < b.len() && a != c implies b[a] != b[c] by {
                            if a == self.bucket(s).len() {
                                assert(self.bucket(s)[c] == b[c]);
                            } else if c == self.bucket(s).len() {
                                assert(self.bucket(s)[a] == b[a]);
                            }
                        }
                    } else if t == old_s {
                    } else {
                        assert(self.bucket(t).no_duplicates());
                    }
                }
            }
        } else {
            assert(!self.bucket(s).contains(v)) by {
                if self.bucket(s).contains(v) {
                    let j = choose|j: int| 0 <= j < self.bucket(s).len() && self.bucket(s)[j] == v;
                    assert(self.scores.contains_key(self.bucket(s)[j]));
                }
            }
            assert(n.bucket(s) == self.bucket(s).push(v));
            assert forall|u: Seq<char>| #[trigger] n.scores.contains_key(u) implies n.bucket(n.scores[u]).contains(u) by {
                if u != v {
                    let t = self.scores[u];
                    assert(self.bucket(t).contains(u));
                    if t == s {
                        let j = choose|j: int| 0 <= j < self.bucket(t).len() && self.bucket(t)[j] == u;
                        assert(n.bucket(s)[j] == u);
                    }
                } else {
                    assert(n.bucket(s)[self.bucket(s).len() as int] == v);
                }
            }
            assert forall|t: u32, i: int| 0 <= i < n.bucket(t).len() implies {
                &&& n.scores.contains_key(#[trigger] n.bucket(t)[i])
                &&& n.scores[n.bucket(t)[i]] == t
            } by {
                let u = n.bucket(t)[i];
                if t == s {
                    if i < self.bucket(s).len() {
                        assert(self.bucket(s)[i] == u);
                    }
                } else {
                    assert(self.bucket(t)[i] == u);
                }
            }
            assert forall|t: u32| #[trigger] n.bucket(t).no_duplicates() by {
                if t == s {
                    assert(self.bucket(s).no_duplicates());
                    let b = n.bucket(s);
                    assert forall|a: int, c: int| 0 <= a < b.len() && 0 <= c < b.len() && a != c implies b[a] != b[c] by {
                        if a == self.bucket(s).len() {
                            assert(self.bucket(s)[c] == b[c]);
                        } else if c == self.bucket(s).len() {
                            assert(self.bucket(s)[a] == b[a]);
                        }
                    }
                } else {
                    assert(self.bucket(t).no_duplicates());
                }
            }
        }
    }

    /// Removing keeps a sorted set well formed.
    pub proof fn lemma_remove_wf(self, v: Seq<char>)
        requires
            self.wf(),
        ensures
            self.remove(v).wf(),
    {
        let n = self.remove(v);
        if self.scores.contains_key(v) {
            let old_s = self.scores[v];
            lemma_without(self.bucket(old_s), v);
            assert(n.bucket(old_s) == without(self.bucket(old_s), v));
            assert forall|u: Seq<char>| #[trigger] n.scores.contains_key(u) implies n.bucket(n.scores[u]).contains(u) by {
                let t = self.scores[u];
                assert(self.bucket(t).contains(u));
            }
            assert forall|t: u32, i: int| 0 <= i < n.bucket(t).len() implies {
                &&& n.scores.contains_key(#[trigger] n.bucket(t)[i])
                &&& n.scores[n.bucket(t)[i]] == t
            } by {
                let u = n.bucket(t)[i];
                if t == old_s {
                    assert(without(self.bucket(old_s), v).contains(u));
                    let j = choose|j: int| 0 <= j < self.bucket(old_s).len() && self.bucket(old_s)[j] == u;
                    assert(self.scores[self.bucket(old_s)[j]] == old_s);
                } else {
                    assert(self.bucket(t)[i] == u);
                }
            }
            assert forall|t: u32| #[trigger] n.bucket(t).no_duplicates() by {
                if t != old_s {
                    assert(self.bucket(t).no_duplicates());
                }
            }
        }
    }
}

impl ZSetModel {
    /// Scores without a bucket add nothing to a range.
    pub proof fn lemma_range_gap(self, min: u32, p: int, q: int)
        requires
            min - 1 <= p <= q,
            q <= u32::MAX,
            forall|r: u32| p < r <= q ==> !#[trigger] self.buckets.contains_key(r),
        ensures
            self.range_upto(min, q) == self.range_upto(min, p),
        decreases q - p,
    {
        if q > p {
            self.lemma_range_gap(min, p, q - 1);
            assert(!self.buckets.contains_key(q as u32));
            assert(tag_with_score(q as u32, self.bucket(q as u32)) =~= Seq::empty());
            assert(self.range_upto(min, q) =~= self.range_upto(min, q - 1));
        }
    }
}

impl ZSetModel {
    /// What a range up to `hi` holds: only members whose score lies in
    /// `[min, hi]`, each with its own score, in ascending score order,
    /// each member once, and every such member.
    pub proof fn lemma_range_upto_contents(self, min: u32, hi: int)
        requires
            self.wf(),
            hi <= u32::MAX,
        ensures
            ({
                let r = self.range_upto(min, hi);
                &&& forall|i: int| #![trigger r[i]] 0 <= i < r.len() ==> {
                    &&& min <= r[i].0 <= hi
                    &&& self.scores.contains_key(r[i].1)
                    &&& self.scores[r[i].1] == r[i].0
                }
                &&& forall|i: int, j: int| 0 <= i < j < r.len() ==> #[trigger] r[i].0 <= #[trigger] r[j].0
                &&& forall|i: int, j: int| 0 <= i < j < r.len() ==> #[trigger] r[i].1 != #[trigger] r[j].1
                &&& forall|v: Seq<char>| #[trigger] self.scores.contains_key(v) && min <= self.scores[v] <= hi
                    ==> exists|i: int| 0 <= i < r.len() && r[i].1 == v
            }),
        decreases hi + 1 - min,
    {
        if hi >= min {
            self.lemma_range_upto_contents(min, hi - 1);
            let p = self.range_upto(min, hi - 1);
            let b = self.bucket(hi as u32);
            let t = tag_with_score(hi as u32, b);
            let r = self.range_upto(min, hi);
            assert(r == p + t);
            assert(b.no_duplicates());
            assert forall|i: int| #![trigger r[i]] 0 <= i < r.len() implies {
                &&& min <= r[i].0 <= hi
                &&& self.scores.contains_key(r[i].1)
                &&& self.scores[r[i].1] == r[i].0
            } by {
                if i >= p.len() {
                    assert(r[i] == t[i - p.len()]);
                    assert(t[i - p.len()] == (hi as u32, b[i - p.len()]));
                } else {
                    assert(r[i] == p[i]);
                }
            }
            assert forall|i: int, j: int| 0 <= i < j < r.len() implies #[trigger] r[i].0 <= #[trigger] r[j].0 by {
                if j >= p.len() {
                    assert(r[j] == t[j - p.len()]);
                    if i < p.len() {
                        assert(r[i] == p[i]);
                    } else {
                        assert(r[i] == t[i - p.len()]);
                    }
                } else {
                    assert(r[i] == p[i]);
                    assert(r[j] == p[j]);
                }
            }
            assert forall|i: int, j: int| 0 <= i < j < r.len() implies #[trigger] r[i].1 != #[trigger] r[j].1 by {
                if j >= p.len() {
                    assert(r[j] == t[j - p.len()]);
                    if i < p.len() {
                        assert(r[i] == p[i]);
                        assert(self.scores[r[i].1] <= hi - 1);
                        assert(self.scores[b[j - p.len()]] == hi as u32);
                    } else {
                        assert(r[i] == t[i - p.len()]);
                        assert(b[i - p.len()] != b[j - p.len()]);
                    }
                } else {
                    assert(r[i] == p[i]);
                    assert(r[j] == p[j]);
                }
            }
            assert forall|v: Seq<char>| #[trigger] self.scores.contains_key(v) && min <= self.scores[v] <= hi
                implies exists|i: int| 0 <= i < r.len() && r[i].1 == v by {
                if self.scores[v] == hi {
                    assert(b.contains(v));
                    let k = choose|k: int| 0 <= k < b.len() && b[k] == v;
                    assert(r[p.len() + k] == t[k]);
                } else {
                    let i = choose|i: int| 0 <= i < p.len() && p[i].1 == v;
                    assert(r[i] == p[i]);
                }
            }
        }
    }

    /// `ZRANGE min max` of a well-formed set holds exactly the members whose
    /// score lies in `[min, max]`, each once and with its score, in
    /// ascending score order.
    pub proof fn lemma_range_contents(self, min: u32, max: u32)
        requires
            self.wf(),
        ensures
            ({
                let r = self.range(min, max);
                &&& forall|i: int| #![trigger r[i]] 0 <= i < r.len() ==> {
                    &&& min <= r[i].0 <= max
                    &&& self.scores.contains_key(r[i].1)
                    &&& self.scores[r[i].1] == r[i].0
                }
                &&& forall|i: int, j: int| 0 <= i < j < r.len() ==> #[trigger] r[i].0 <= #[trigger] r[j].0
                &&& forall|i: int, j: int| 0 <= i < j < r.len() ==> #[trigger] r[i].1 != #[trigger] r[j].1
                &&& forall|v: Seq<char>| #[trigger] self.scores.contains_key(v) && min <= self.scores[v] <= max
                    ==> exists|i: int| 0 <= i < r.len() && r[i].1 == v
            }),
    {
        self.lemma_range_upto_contents(min, max as int);
    }
}

impl ZSetModel {
    /// A member is in `ZRANGE min max` exactly when it has a score in the
    /// range, and then with that score.
    pub proof fn lemma_range_membership(self, min: u32, max: u32, x: (u32, Seq<char>))
        requires
            self.wf(),
        ensures
            self.range(min, max).contains(x) <==> (self.scores.contains_key(x.1) && self.scores[x.1] == x.0
                && min <= x.0 <= max),
    {
        self.lemma_range_contents(min, max);
        let r = self.range(min, max);
        if r.contains(x) {
            let i = choose|i: int| 0 <= i < r.len() && r[i] == x;
            assert(min <= r[i].0 <= max);
        }
        if self.scores.contains_key(x.1) && self.scores[x.1] == x.0 && min <= x.0 <= max {
            let i = choose|i: int| 0 <= i < r.len() && r[i].1 == x.1;
            assert(self.scores[r[i].1] == r[i].0);
            assert(r[i] == x);
        }
    }

    /// Two sets whose buckets hold the same members in the same order give
    /// the same ranges.
    pub proof fn lemma_range_same_buckets(self, other: ZSetModel, min: u32, hi: int)
        requires
            forall|x: u32| #[trigger] self.bucket(x) == other.bucket(x),
        ensures
            self.range_upto(min, hi) == other.range_upto(min, hi),
        decreases hi + 1 - min,
    {
        if hi >= min {
            self.lemma_range_same_buckets(other, min, hi - 1);
            assert(self.bucket(hi as u32) == other.bucket(hi as u32));
        }
    }

    /// A range whose start lies above its end holds no member.
    pub proof fn lemma_reversed_range_empty(self, min: u32, max: u32)
        requires
            max < min,
        ensures
            self.range(min, max) == Seq::<(u32, Seq<char>)>::empty(),
    {
    }
}

/// An ordered-map iterator yields every entry of the map, keys in strictly
/// increasing order.
proof fn lemma_iter_keys_increase(m: &BTreeMap<u32, Vec<String>>, s: Seq<(&u32, &Vec<String>)>)
    requires
        s == vstd::std_specs::iter::IteratorSpec::remaining(&vstd::std_specs::btree::spec_btree_map_iter(m)),
        vstd::std_specs::btree::key_obeys_cmp_spec::<u32>() ==> vstd::std_specs::btree::increasing_seq(
            s.map_values(|kv: (&u32, &Vec<String>)| *kv.0),
        ),
    ensures
        forall|i: int, j: int| 0 <= i < j < s.len() ==> *s[i].0 < *s[j].0,
        forall|i: int| 0 <= i < s.len() ==> {
            &&& m@.contains_key(*#[trigger] s[i].0)
            &&& m@[*s[i].0] == *s[i].1
        },
        forall|k: u32| #[trigger] m@.contains_key(k) ==> exists|j: int| 0 <= j < s.len() && *s[j].0 == k,
{
    broadcast use vstd::laws_cmp::group_laws_cmp;
    broadcast use vstd::std_specs::btree::group_btree_axioms;

    assert(vstd::laws_cmp::obeys_cmp::<u32>());
    assert(vstd::std_specs::btree::key_obeys_cmp_spec::<u32>());
    let ks = s.map_values(|kv: (&u32, &Vec<String>)| *kv.0);
    assert forall|i: int, j: int| 0 <= i < j < s.len() implies *s[i].0 < *s[j].0 by {
        assert(vstd::std_specs::cmp::OrdSpec::cmp_spec(&ks[i], &ks[j]) is Less);
        assert(ks[i] == *s[i].0);
        assert(ks[j] == *s[j].0);
    }
    assert forall|k: u32| #[trigger] m@.contains_key(k) implies exists|j: int| 0 <= j < s.len() && *s[j].0 == k by {
        assert(s.contains((&k, &m@[k])));
        let j = choose|j: int| 0 <= j < s.len() && s[j] == (&k, &m@[k]);
        assert(*s[j].0 == k);
    }
}

/// The `(score, member)` pairs that a vector of `ScoreValue` holds.
pub open spec fn score_values_view(v: Seq<ScoreValue>) -> Seq<(u32, Seq<char>)> {
    v.map_values(|x: ScoreValue| x@)
}

/// The strings that a vector of `String` holds.
pub open spec fn strings_view(v: Seq<String>) -> Seq<Seq<char>> {
    v.map_values(|x: String| x@)
}

/// A sorted set: a cuckoo map from member to score, and an ordered map from
/// score to the members that have it.
///
/// Each score's members are a `Vec` in the order in which they took the
/// score, with no member twice (`ZSetModel::wf`). A `HashSet<String>` is not
/// used there: vstd gives `HashSet` contents only for key types that obey
/// its key model, and `String` is not among them.
pub struct ZSet {
    value_to_score: LockFreeCuckooHash<String, u32>,
    score_to_values: BTreeMap<u32, Vec<String>>,
}

impl View for ZSet {
    type V = ZSetModel;

    closed spec fn view(&self) -> ZSetModel {
        ZSetModel {
            scores: score_map_contents(self.value_to_score),
            buckets: self.score_to_values@.map_values(|vs: Vec<String>| strings_view(vs@)),
        }
    }
}

impl ZSet {
    /// The set is well formed (see `ZSetModel::wf`).
    pub open spec fn wf(&self) -> bool {
        self@.wf()
    }

    /// An empty sorted set.
    pub fn new() -> (z: ZSet)
        ensures
            z@ == ZSetModel::empty(),
            z.wf(),
    {
        let z = ZSet { value_to_score: score_map_new(), score_to_values: BTreeMap::new() };
        assert(z@.scores =~= Map::empty());
        assert(z@.buckets =~= Map::empty());
        z
    }
    /// The position of `v` in a vector of strings, if it is there.
    fn find_member(vs: &Vec<String>, v: &String) -> (r: Option<usize>)
        ensures
            r matches Some(i) ==> i < vs.len() && vs@[i as int]@ == v@,
            r is None ==> !strings_view(vs@).contains(v@),
    {
        let mut i: usize = 0;
        while i < vs.len()
            invariant
                i <= vs.len(),
                forall|j: int| 0 <= j < i ==> vs@[j]@ != v@,
            decreases vs.len() - i,
        {
            if vs[i] == *v {
                return Some(i);
            }
            i = i + 1;
        }
        proof {
            if strings_view(vs@).contains(v@) {
                let j = choose|j: int| 0 <= j < vs.len() && strings_view(vs@)[j] == v@;
                assert(vs@[j]@ == v@);
            }
        }
        None
    }

    /// Appends `v` to the bucket of score `s`.
    fn push_into_bucket(&mut self, s: u32, v: String)
        ensures
            final(self).value_to_score == old(self).value_to_score,
            final(self)@.buckets == old(self)@.buckets.insert(s, old(self)@.bucket(s).push(v@)),
    {
        broadcast use vstd::std_specs::btree::group_btree_axioms;
        let ghost old_buckets = self@.buckets;
        let mut vs = match self.score_to_values.remove(&s) {
            Some(vs) => vs,
            None => Vec::new(),
        };
        assert(strings_view(vs@) == old(self)@.bucket(s));
        let ghost before = vs@;
        vs.push(v);
        assert(strings_view(vs@) =~= strings_view(before).push(v@));
        self.score_to_values.insert(s, vs);
        assert(self@.buckets =~= old_buckets.insert(s, old(self)@.bucket(s).push(v@)));
    }

    /// Takes `v` out of the bucket of score `s`, where it is.
    fn take_out_of_bucket(&mut self, s: u32, v: &String)
        requires
            old(self)@.bucket(s).contains(v@),
            old(self)@.bucket(s).no_duplicates(),
        ensures
            final(self).value_to_score == old(self).value_to_score,
            final(self)@.buckets == old(self)@.buckets.insert(s, without(old(self)@.bucket(s), v@)),
    {
        broadcast use vstd::std_specs::btree::group_btree_axioms;
        let ghost old_buckets = self@.buckets;
        let ghost b = old(self)@.bucket(s);
        let mut vs = match self.score_to_values.remove(&s) {
            Some(vs) => vs,
            None => Vec::new(),
        };
        assert(strings_view(vs@) == b);
        match Self::find_member(&vs, v) {
            Some(i) => {
                let ghost before = vs@;
                proof {
                    let k = b.index_of(v@);
                    assert(0 <= k < b.len() && b[k] == v@);
                    assert(b[i as int] == v@);
                    assert(k == i);
                }
                vs.remove(i);
                assert(strings_view(vs@) =~= without(b, v@));
            }
            None => {
                assert(false);
            }
        }
        self.score_to_values.insert(s, vs);
        assert(self@.buckets =~= old_buckets.insert(s, without(b, v@)));
    }

    /// `ZADD`: gives member `value` the score `score`, adding it if it is
    /// new.
    pub fn add(&mut self, value: String, score: u32)
        requires
            old(self).wf(),
        ensures
            final(self).wf(),
            final(self)@ == old(self)@.add(value@, score),
    {
        proof {
            old(self)@.lemma_add_wf(value@, score);
        }
        match score_map_get(&self.value_to_score, value.as_str()) {
            Some(old_score) => {
                if old_score != score {
                    self.take_out_of_bucket(old_score, &value);
                    let ghost mid = self@.buckets;
                    self.push_into_bucket(score, value.clone());
                    score_map_insert(&mut self.value_to_score, value, score);
                    assert(self@.buckets =~= old(self)@.add(value@, score).buckets);
                    assert(self@.scores =~= old(self)@.add(value@, score).scores);
                }
            }
            None => {
                self.push_into_bucket(score, value.clone());
                score_map_insert(&mut self.value_to_score, value, score);
                assert(self@.scores =~= old(self)@.add(value@, score).scores);
            }
        }
    }

    /// `ZRMV`: removes member `value`; returns the score it had, if it was a
    /// member.
    pub fn remove(&mut self, value: &str) -> (r: Option<u32>)
        requires
            old(self).wf(),
        ensures
            final(self).wf(),
            final(self)@ == old(self)@.remove(value@),
            r is Some <==> old(self)@.scores.contains_key(value@),
            r matches Some(s) ==> s == old(self)@.scores[value@],
    {
        proof {
            old(self)@.lemma_remove_wf(value@);
        }
        let r = score_map_remove(&mut self.value_to_score, value);
        match r {
            Some(old_score) => {
                let v = value.to_owned();
                self.take_out_of_bucket(old_score, &v);
                assert(self@.scores =~= old(self)@.remove(value@).scores);
                assert(self@.buckets =~= old(self)@.remove(value@).buckets);
            }
            None => {
                assert(self@.scores =~= old(self)@.scores);
            }
        }
        r
    }
    /// `ZRANGE`: the members with a score in `[min, max]`, in ascending score
    /// order (see `ZSetModel::range`).
    pub fn range(&self, min: u32, max: u32) -> (r: Vec<ScoreValue>)
        ensures
            score_values_view(r@) == self@.range(min, max),
    {
        broadcast use vstd::std_specs::btree::group_btree_axioms;
        let ghost m = self@;
        let mut out: Vec<ScoreValue> = Vec::new();
        let ghost mut lim: int = min - 1;
        if max < min {
            assert(score_values_view(out@) =~= m.range(min, max));
            return out;
        }
        let entries = self.score_to_values.iter();
        let ghost items = vstd::std_specs::iter::IteratorSpec::remaining(&entries);
        proof {
            lemma_iter_keys_increase(&self.score_to_values, items);
            assert(score_values_view(out@) =~= m.range_upto(min, lim));
        }
        for (k, vs) in it: entries
            invariant
                it.seq() == items,
                forall|i: int, j: int| 0 <= i < j < items.len() ==> *items[i].0 < *items[j].0,
                forall|i: int| 0 <= i < items.len() ==> {
                    &&& self.score_to_values@.contains_key(*#[trigger] items[i].0)
                    &&& self.score_to_values@[*items[i].0] == *items[i].1
                },
                m == self@,
                min - 1 <= lim <= max,
                score_values_view(out@) == m.range_upto(min, lim),
                forall|key: u32| #[trigger] self.score_to_values@.contains_key(key) && lim < key <= max
                    ==> exists|j: int| it.index() <= j < items.len() && *items[j].0 == key,
                min <= max,
                forall|j: int| it.index() <= j < items.len() && *items[j].0 >= min ==> lim < *#[trigger] items[j].0,
        {
            assert(items[it.index() as int] == (k, vs));
            if min <= *k && *k <= max {
                proof {
                    assert forall|r: u32| lim < r <= *k - 1 implies !#[trigger] m.buckets.contains_key(r) by {
                        if m.buckets.contains_key(r) {
                            let j = choose|j: int| it.index() <= j < items.len() && *items[j].0 == r;
                            if j > it.index() {
                                assert(*items[it.index() as int].0 < *items[j].0);
                            }
                        }
                    }
                    m.lemma_range_gap(min, lim, *k - 1);
                    assert(m.bucket(*k) == strings_view(vs@));
                }
                let ghost before = out@;
                let mut j: usize = 0;
                while j < vs.len()
                    invariant
                        j <= vs.len(),
                        score_values_view(out@) == score_values_view(before) + tag_with_score(*k, strings_view(vs@)).take(j as int),
                    decreases vs.len() - j,
                {
                    let ghost pre = out@;
                    out.push(ScoreValue { score: *k, value: vs[j].clone() });
                    assert(score_values_view(out@) =~= score_values_view(pre).push((*k, vs@[j as int]@)));
                    assert(tag_with_score(*k, strings_view(vs@)).take(j + 1) =~= tag_with_score(*k, strings_view(vs@)).take(j as int).push((*k, vs@[j as int]@)));
                    j = j + 1;
                }
                proof {
                    assert(tag_with_score(*k, strings_view(vs@)).take(vs.len() as int) =~= tag_with_score(*k, strings_view(vs@)));
                    assert(m.range_upto(min, *k as int) == m.range_upto(min, *k - 1) + tag_with_score(*k, m.bucket(*k)));
                    lim = *k as int;
                }
            }
            proof {
                assert forall|key: u32| #[trigger] self.score_to_values@.contains_key(key) && lim < key <= max
                    implies exists|j: int| it.index() + 1 <= j < items.len() && *items[j].0 == key by {
                    let j = choose|j: int| it.index() <= j < items.len() && *items[j].0 == key;
                    assert(j != it.index());
                }
            }
        }
        proof {
            assert forall|r: u32| lim < r <= max implies !#[trigger] m.buckets.contains_key(r) by {
            }
            m.lemma_range_gap(min, lim, max as int);
        }
        out
    }
}

} // verus!
