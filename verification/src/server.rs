//! The request handlers: each decides, from the store, whether this node
//! serves the key or which peer does; a request served here is carried out
//! on the store and yields the reply and the rows to persist.

use crate::codec::encode_score;
use crate::codec::zset_row_key;
use crate::dto::InsrtRequest;
use crate::dto::ScoreRange;
use crate::dto::ScoreValue;
use crate::handler::done_reply;
use crate::handler::query_reply;
use crate::handler::zadd_reply;
use crate::handler::zrange_reply;
use crate::handler::Body;
use crate::handler::BodySpec;
use crate::handler::Reply;
use crate::handler::STATUS_BAD_REQUEST;
use crate::handler::STATUS_NOT_FOUND;
use crate::handler::STATUS_OK;
use crate::dto::UpdateCluster;
use crate::handler::init_reply;
use crate::handler::ok_text;
use crate::shard::keys_of_node;
use crate::shard::node_of;
use crate::shard::pairs_of_node;
use crate::shard::partition_by_shard;
use crate::shard::partition_keys_by_shard;
use crate::storage::dedup;
use crate::storage::found;
use crate::storage::LOAD_STATE_FAILED;
use crate::storage::LOAD_STATE_INIT;
use crate::storage::LOAD_STATE_LOADED;
use crate::storage::LOAD_STATE_LOADING;
use crate::zset::strings_view;
use crate::storage::pairs_view;
use crate::storage::Storage;
use crate::storage::StoreModel;
use vstd::prelude::*;

verus! {

/// A row write for the persistent copy, as a spec.
pub enum PersistSpec {
    PutKv(Seq<char>, Seq<char>),
    DeleteKv(Seq<char>),
    PutZsetRow(Seq<u8>, Seq<u8>),
    DeleteZsetRow(Seq<u8>),
}

/// A row write for the persistent copy of the store.
#[derive(Debug, PartialEq, Eq)]
pub enum Persist {
    /// Store a plain value.
    PutKv(String, String),
    /// Delete a plain value.
    DeleteKv(String),
    /// Store a sorted-set row (row key, score bytes).
    PutZsetRow(Vec<u8>, Vec<u8>),
    /// Delete a sorted-set row.
    DeleteZsetRow(Vec<u8>),
}

impl View for Persist {
    type V = PersistSpec;

    open spec fn view(&self) -> PersistSpec {
        match self {
            Persist::PutKv(k, v) => PersistSpec::PutKv(k@, v@),
            Persist::DeleteKv(k) => PersistSpec::DeleteKv(k@),
            Persist::PutZsetRow(k, v) => PersistSpec::PutZsetRow(k@, v@),
            Persist::DeleteZsetRow(k) => PersistSpec::DeleteZsetRow(k@),
        }
    }
}

/// The writes of a vector of `Persist`.
pub open spec fn persist_view(v: Seq<Persist>) -> Seq<PersistSpec> {
    v.map_values(|p: Persist| p@)
}

/// What a handler decided, as a spec.
pub enum StepSpec {
    Done((u16, BodySpec), Seq<PersistSpec>),
    Forward(usize),
}

/// What a handler decided: the request was served here (the reply, and
/// the rows to write), or it belongs to the peer with this index.
#[derive(Debug, PartialEq, Eq)]
pub enum Step {
    Done(Reply, Vec<Persist>),
    Forward(usize),
}

impl View for Step {
    type V = StepSpec;

    open spec fn view(&self) -> StepSpec {
        match self {
            Step::Done(r, w) => StepSpec::Done(r@, persist_view(w@)),
            Step::Forward(s) => StepSpec::Forward(*s),
        }
    }
}

/// Whether this node serves `key`.
pub open spec fn serves(m: StoreModel, key: Seq<char>) -> bool {
    node_of(key, m.count) == m.me
}

/// The peer that serves `key`, when this node does not.
pub open spec fn owner(m: StoreModel, key: Seq<char>) -> usize {
    node_of(key, m.count) as usize
}

/// `GET /query/{key}`.
pub fn handle_query(storage: &Storage, key: &str) -> (r: Step)
    ensures
        r@ == (if serves(storage.view(), key@) {
            StepSpec::Done(
                if storage.view().kv.contains_key(key@) {
                    (STATUS_OK, BodySpec::Text(storage.view().kv[key@]))
                } else {
                    (STATUS_NOT_FOUND, BodySpec::Empty)
                },
                Seq::empty(),
            )
        } else {
            StepSpec::Forward(owner(storage.view(), key@))
        }),
{
    match storage.locate(key) {
        None => {
            let reply = query_reply(Ok(storage.get_kv(key)));
            let writes: Vec<Persist> = Vec::new();
            assert(persist_view(writes@) =~= Seq::empty());
            Step::Done(reply, writes)
        },
        Some(shard) => Step::Forward(shard),
    }
}

/// `GET /del/{key}`: the plain value and the sorted set go.
pub fn handle_del(storage: &mut Storage, key: &str) -> (r: Step)
    requires
        old(storage).wf(),
    ensures
        final(storage).wf(),
        serves(old(storage).view(), key@) ==> {
            &&& final(storage).view() == old(storage).view().del(key@)
            &&& r@ == StepSpec::Done((STATUS_OK, BodySpec::Empty), seq![PersistSpec::DeleteKv(key@)])
        },
        !serves(old(storage).view(), key@) ==> {
            &&& final(storage).view() == old(storage).view()
            &&& r@ == StepSpec::Forward(owner(old(storage).view(), key@))
        },
{
    match storage.locate(key) {
        None => {
            storage.del(key);
            let mut writes: Vec<Persist> = Vec::new();
            writes.push(Persist::DeleteKv(key.to_owned()));
            assert(persist_view(writes@) =~= seq![PersistSpec::DeleteKv(key@)]);
            Step::Done(done_reply(Ok(())), writes)
        },
        Some(shard) => Step::Forward(shard),
    }
}

/// `POST /add`: the key holds the value (a sorted set of that name goes).
pub fn handle_add(storage: &mut Storage, kv: InsrtRequest) -> (r: Step)
    requires
        old(storage).wf(),
    ensures
        final(storage).wf(),
        serves(old(storage).view(), kv.key@) ==> {
            &&& final(storage).view() == old(storage).view().insert_kv(kv.key@, kv.value@)
            &&& r@ == StepSpec::Done(
                (STATUS_OK, BodySpec::Empty),
                seq![PersistSpec::PutKv(kv.key@, kv.value@)],
            )
        },
        !serves(old(storage).view(), kv.key@) ==> {
            &&& final(storage).view() == old(storage).view()
            &&& r@ == StepSpec::Forward(owner(old(storage).view(), kv.key@))
        },
{
    match storage.locate(kv.key.as_str()) {
        None => {
            let _ = storage.insert_kv(kv.key.as_str(), kv.value.as_str());
            let mut writes: Vec<Persist> = Vec::new();
            writes.push(Persist::PutKv(kv.key, kv.value));
            assert(persist_view(writes@) =~= seq![PersistSpec::PutKv(kv.key@, kv.value@)]);
            Step::Done(done_reply(Ok(())), writes)
        },
        Some(shard) => Step::Forward(shard),
    }
}

/// `POST /zadd/{key}`: refused with 400 when the key holds a plain value;
/// else the member takes its score, and its row is written.
pub fn handle_zadd(storage: &mut Storage, key: &str, score_value: ScoreValue) -> (r: Step)
    requires
        old(storage).wf(),
    ensures
        final(storage).wf(),
        serves(old(storage).view(), key@) && old(storage).view().zadd_refused(key@) ==> {
            &&& final(storage).view() == old(storage).view()
            &&& r@ == StepSpec::Done((STATUS_BAD_REQUEST, BodySpec::Empty), Seq::empty())
        },
        serves(old(storage).view(), key@) && !old(storage).view().zadd_refused(key@) ==> {
            &&& final(storage).view() == old(storage).view().zadd(key@, score_value.value@, score_value.score)
            &&& r@ == StepSpec::Done(
                (STATUS_OK, BodySpec::Empty),
                seq![PersistSpec::PutZsetRow(
                    zset_row_key(key@, score_value.value@),
                    vstd::bytes::spec_u32_to_le_bytes(score_value.score),
                )],
            )
        },
        !serves(old(storage).view(), key@) ==> {
            &&& final(storage).view() == old(storage).view()
            &&& r@ == StepSpec::Forward(owner(old(storage).view(), key@))
        },
{
    match storage.locate(key) {
        None => {
            let row = Storage::get_zset_key(key, score_value.value.as_str());
            let score = encode_score(score_value.score);
            let outcome = storage.zadd(key, score_value);
            let mut writes: Vec<Persist> = Vec::new();
            if outcome.is_ok() {
                writes.push(Persist::PutZsetRow(row, score));
                assert(persist_view(writes@) =~= seq![PersistSpec::PutZsetRow(
                    zset_row_key(key@, score_value.value@),
                    vstd::bytes::spec_u32_to_le_bytes(score_value.score),
                )]);
            } else {
                assert(persist_view(writes@) =~= Seq::empty());
            }
            Step::Done(zadd_reply(Ok(outcome)), writes)
        },
        Some(shard) => Step::Forward(shard),
    }
}

/// `POST /zrange/{key}`: the members in the score range (200), or 404 when
/// there is no such set.
pub fn handle_zrange(storage: &Storage, key: &str, score_range: ScoreRange) -> (r: Step)
    requires
        storage.wf(),
    ensures
        r@ == (if serves(storage.view(), key@) {
            StepSpec::Done(
                match storage.view().zrange(key@, score_range.min_score, score_range.max_score) {
                    Some(v) => (STATUS_OK, BodySpec::Values(v)),
                    None => (STATUS_NOT_FOUND, BodySpec::Empty),
                },
                Seq::empty(),
            )
        } else {
            StepSpec::Forward(owner(storage.view(), key@))
        }),
{
    match storage.locate(key) {
        None => {
            let reply = zrange_reply(Ok(storage.zrange(key, score_range)));
            let writes: Vec<Persist> = Vec::new();
            assert(persist_view(writes@) =~= Seq::empty());
            Step::Done(reply, writes)
        },
        Some(shard) => Step::Forward(shard),
    }
}

/// `GET /zrmv/{key}/{value}`: the member leaves the set (its row is
/// deleted when it was there); 200 either way.
pub fn handle_zrmv(storage: &mut Storage, key: &str, value: &str) -> (r: Step)
    requires
        old(storage).wf(),
    ensures
        final(storage).wf(),
        serves(old(storage).view(), key@) ==> {
            let m = old(storage).view();
            let was_member = m.zsets.contains_key(key@) && m.zsets[key@].scores.contains_key(value@);
            &&& final(storage).view() == m.zrmv(key@, value@)
            &&& r@ == StepSpec::Done(
                (STATUS_OK, BodySpec::Empty),
                if was_member {
                    seq![PersistSpec::DeleteZsetRow(zset_row_key(key@, value@))]
                } else {
                    Seq::empty()
                },
            )
        },
        !serves(old(storage).view(), key@) ==> {
            &&& final(storage).view() == old(storage).view()
            &&& r@ == StepSpec::Forward(owner(old(storage).view(), key@))
        },
{
    match storage.locate(key) {
        None => {
            let removed = storage.zrmv(key, value);
            let mut writes: Vec<Persist> = Vec::new();
            if removed.is_some() {
                writes.push(Persist::DeleteZsetRow(Storage::get_zset_key(key, value)));
                assert(persist_view(writes@) =~= seq![PersistSpec::DeleteZsetRow(zset_row_key(key@, value@))]);
            } else {
                assert(persist_view(writes@) =~= Seq::empty());
            }
            Step::Done(done_reply(Ok(())), writes)
        },
        Some(shard) => Step::Forward(shard),
    }
}


/// The writes that store the given pairs, in order.
pub open spec fn kv_puts(p: Seq<(Seq<char>, Seq<char>)>) -> Seq<PersistSpec> {
    p.map_values(|x: (Seq<char>, Seq<char>)| PersistSpec::PutKv(x.0, x.1))
}

/// `POST /batch`: the pairs that this node serves are added here in order;
/// returns the rows to write for them, and the other pairs grouped by the
/// peer that serves them, one group per peer, for the caller to send on.
/// The caller answers with `batch_reply` on what the peers answered.
pub fn handle_batch(storage: &mut Storage, kvs: Vec<InsrtRequest>) -> (r: (
    Vec<Persist>,
    Vec<(u32, Vec<InsrtRequest>)>,
))
    requires
        old(storage).wf(),
    ensures
        final(storage).wf(),
        ({
            let m = old(storage).view();
            let all = pairs_view(kvs@);
            let mine = pairs_of_node(all, m.count, m.me);
            &&& final(storage).view() == m.insert_all(mine)
            &&& persist_view(r.0@) == kv_puts(mine)
            &&& forall|g: int| #![trigger r.1@[g]] 0 <= g < r.1@.len() ==> {
                &&& r.1@[g].0 != m.me
                &&& pairs_view(r.1@[g].1@) == pairs_of_node(all, m.count, r.1@[g].0)
                &&& r.1@[g].1@.len() > 0
            }
            &&& forall|g: int, h: int| 0 <= g < h < r.1@.len() ==> #[trigger] r.1@[g].0 != #[trigger] r.1@[h].0
            &&& forall|j: int| #![trigger kvs@[j]] 0 <= j < kvs@.len() && node_of(kvs@[j].key@, m.count) != m.me
                ==> exists|g: int| 0 <= g < r.1@.len() && r.1@[g].0 == node_of(kvs@[j].key@, m.count)
        }),
{
    let me = storage.me();
    let count = storage.count();
    let (mine, groups) = partition_by_shard(&kvs, count, me);
    let mut writes: Vec<Persist> = Vec::new();
    let mut i: usize = 0;
    while i < mine.len()
        invariant
            i <= mine.len(),
            persist_view(writes@) == kv_puts(pairs_view(mine@)).take(i as int),
        decreases mine.len() - i,
    {
        let ghost before = writes@;
        writes.push(Persist::PutKv(mine[i].key.clone(), mine[i].value.clone()));
        assert(persist_view(writes@) =~= kv_puts(pairs_view(mine@)).take(i + 1)) by {
            assert(persist_view(writes@) =~= persist_view(before).push(PersistSpec::PutKv(mine@[i as int].key@, mine@[i as int].value@)));
        }
        i = i + 1;
    }
    assert(kv_puts(pairs_view(mine@)).take(mine.len() as int) =~= kv_puts(pairs_view(mine@)));
    let ghost groups_view = groups@;
    let _ = storage.batch_insert_kv(mine);
    let r = (writes, groups);
    assert forall|j: int| #![trigger kvs@[j]] 0 <= j < kvs@.len() && node_of(kvs@[j].key@, count) != me
        implies exists|g: int| 0 <= g < r.1@.len() && r.1@[g].0 == node_of(kvs@[j].key@, count) by {
        let g = choose|g: int| 0 <= g < groups_view.len() && groups_view[g].0 == node_of(kvs@[j].key@, count);
        assert(r.1@[g] == groups_view[g]);
    }
    r
}

/// The reply to `POST /batch`, given what each peer that was sent a share
/// answered (this node's own share is always stored): 200 when every share
/// was stored, 400 when a peer failed.
pub fn batch_reply(answers: &Vec<Result<(), ()>>) -> (r: Reply)
    ensures
        r@ == (if forall|i: int| 0 <= i < answers@.len() ==> #[trigger] answers@[i] is Ok {
            (STATUS_OK, BodySpec::Empty)
        } else {
            (STATUS_BAD_REQUEST, BodySpec::Empty)
        }),
{
    let mut i: usize = 0;
    while i < answers.len()
        invariant
            i <= answers@.len(),
            forall|j: int| 0 <= j < i ==> #[trigger] answers@[j] is Ok,
        decreases answers.len() - i,
    {
        if answers[i].is_err() {
            return Reply { status: STATUS_BAD_REQUEST, body: Body::Empty };
        }
        i = i + 1;
    }
    Reply { status: STATUS_OK, body: Body::Empty }
}

/// `POST /list`: the pairs found here for the distinct keys (in order of
/// first occurrence) that this node serves, and the keys of every other
/// serving peer, grouped by peer, one group per peer. The caller asks the
/// peers and builds the reply with `list_reply`.
pub fn handle_list(storage: &Storage, keys: &Vec<String>) -> (r: (
    Vec<InsrtRequest>,
    Vec<(u32, Vec<String>)>,
))
    ensures
        ({
            let m = storage.view();
            let ks = dedup(strings_view(keys@));
            &&& pairs_view(r.0@) == found(m.kv, keys_of_node(ks, m.count, m.me))
            &&& forall|g: int| #![trigger r.1@[g]] 0 <= g < r.1@.len() ==> {
                &&& r.1@[g].0 != m.me
                &&& strings_view(r.1@[g].1@) == keys_of_node(ks, m.count, r.1@[g].0)
                &&& r.1@[g].1@.len() > 0
            }
            &&& forall|g: int, h: int| 0 <= g < h < r.1@.len() ==> #[trigger] r.1@[g].0 != #[trigger] r.1@[h].0
            &&& forall|j: int| #![trigger ks[j]] 0 <= j < ks.len() && node_of(ks[j], m.count) != m.me
                ==> exists|g: int| 0 <= g < r.1@.len() && r.1@[g].0 == node_of(ks[j], m.count)
        }),
{
    let count = storage.count();
    let me = storage.me();
    let (mine, groups) = partition_keys_by_shard(keys, count, me);
    let ghost groups_view = groups@;
    let r = (storage.list_found(&mine), groups);
    let ghost ks = dedup(strings_view(keys@));
    assert forall|j: int| #![trigger ks[j]] 0 <= j < ks.len() && node_of(ks[j], count) != me
        implies exists|g: int| 0 <= g < r.1@.len() && r.1@[g].0 == node_of(ks[j], count) by {
        let g = choose|g: int| 0 <= g < groups_view.len() && groups_view[g].0 == node_of(ks[j], count);
        assert(r.1@[g] == groups_view[g]);
    }
    r
}

/// Takes up a cluster description (the peers, and this node's one-based
/// position among them), unless one was taken up before. Returns whether
/// it was taken up now.
pub fn take_cluster_info(storage: &mut Storage, info: &UpdateCluster) -> (r: bool)
    requires
        old(storage).wf(),
        old(storage).view().peer_updated || info.index >= 1,
    ensures
        final(storage).wf(),
        r == !old(storage).view().peer_updated,
        r ==> final(storage).view() == (StoreModel {
            peer_updated: true,
            me: (info.index - 1) as u32,
            count: info.hosts@.len() as u64,
            ..old(storage).view()
        }),
        !r ==> final(storage).view() == old(storage).view(),
{
    if storage.begin_peer_update() {
        storage.update_peers(&info.hosts, info.index);
        true
    } else {
        false
    }
}

/// What `GET /init` asks of the caller, as a spec.
pub enum InitStepSpec {
    Answer((u16, BodySpec)),
    RunLoad,
    Wait,
}

/// What `GET /init` asks of the caller: send this reply; or run the
/// start-up load now and answer with what `finish_init` gives; or wait for
/// the load that is running and ask again.
#[derive(Debug, PartialEq, Eq)]
pub enum InitStep {
    Answer(Reply),
    RunLoad,
    Wait,
}

impl View for InitStep {
    type V = InitStepSpec;

    open spec fn view(&self) -> InitStepSpec {
        match self {
            InitStep::Answer(r) => InitStepSpec::Answer(r@),
            InitStep::RunLoad => InitStepSpec::RunLoad,
            InitStep::Wait => InitStepSpec::Wait,
        }
    }
}

/// The reply to `GET /init` for a start-up that is over: `ok` once the load
/// completed, 400 once it failed.
pub open spec fn init_answer(load_state: u32) -> (u16, BodySpec) {
    if load_state == LOAD_STATE_LOADED {
        ok_text()
    } else {
        (STATUS_BAD_REQUEST, BodySpec::Empty)
    }
}

/// `GET /init`: answers only once start-up is over. The first request
/// claims the start-up load (the caller runs it and answers with
/// `finish_init`); while it runs, requests wait; after it, each is answered
/// `ok` when it completed and 400 when it failed.
pub fn handle_init(storage: &mut Storage) -> (r: InitStep)
    requires
        old(storage).wf(),
    ensures
        final(storage).wf(),
        ({
            let m = old(storage).view();
            if m.load_state == LOAD_STATE_INIT {
                &&& r@ == InitStepSpec::RunLoad
                &&& final(storage).view() == (StoreModel { load_state: LOAD_STATE_LOADING, ..m })
            } else if m.load_state == LOAD_STATE_LOADING {
                &&& r@ == InitStepSpec::Wait
                &&& final(storage).view() == m
            } else {
                &&& r@ == InitStepSpec::Answer(init_answer(m.load_state))
                &&& final(storage).view() == m
            }
        }),
{
    let state = storage.load_state();
    if state == LOAD_STATE_INIT {
        let _ = storage.begin_loading();
        InitStep::RunLoad
    } else if state == LOAD_STATE_LOADING {
        InitStep::Wait
    } else {
        InitStep::Answer(init_reply(state == LOAD_STATE_LOADED))
    }
}

/// Ends the start-up load that `handle_init` handed out: records whether it
/// completed and gives the reply to the `GET /init` that ran it (`ok`, or
/// 400 when it failed).
pub fn finish_init(storage: &mut Storage, loaded: bool) -> (r: Reply)
    requires
        old(storage).wf(),
    ensures
        final(storage).wf(),
        final(storage).view() == (StoreModel {
            load_state: if loaded {
                LOAD_STATE_LOADED
            } else {
                LOAD_STATE_FAILED
            },
            ..old(storage).view()
        }),
        r@ == init_answer(final(storage).view().load_state),
{
    storage.finish_loading(loaded);
    init_reply(loaded)
}

} // verus!
