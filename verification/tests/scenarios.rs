use hcache::dto::InsrtRequest;
use hcache::dto::ScoreRange;
use hcache::dto::ScoreValue;
use hcache::handler::list_reply;
use hcache::handler::Body;
use hcache::handler::Reply;
use hcache::server::batch_reply;
use hcache::server::handle_add;
use hcache::server::handle_batch;
use hcache::server::handle_del;
use hcache::server::finish_init;
use hcache::server::handle_init;
use hcache::server::handle_list;
use hcache::server::handle_query;
use hcache::server::handle_zadd;
use hcache::server::handle_zrange;
use hcache::server::handle_zrmv;
use hcache::server::InitStep;
use hcache::server::Persist;
use hcache::server::Step;
use hcache::storage::Storage;

fn reply_of(step: Step) -> Reply {
    match step {
        Step::Done(reply, _) => reply,
        Step::Forward(s) => panic!("forwarded to {}", s),
    }
}

fn add(storage: &mut Storage, key: &str, value: &str) -> u16 {
    reply_of(handle_add(storage, InsrtRequest::new(key.to_string(), value.to_string()))).status
}

fn query(storage: &Storage, key: &str) -> Option<String> {
    let reply = reply_of(handle_query(storage, key));
    match (reply.status, reply.body) {
        (200, Body::Text(t)) => Some(t),
        (404, Body::Empty) => None,
        other => panic!("unexpected query reply {:?}", other),
    }
}

fn del(storage: &mut Storage, key: &str) -> u16 {
    reply_of(handle_del(storage, key)).status
}

fn zadd(storage: &mut Storage, key: &str, score: u32, value: &str) -> u16 {
    reply_of(handle_zadd(storage, key, ScoreValue::new(score, value.to_string()))).status
}

fn zrange(storage: &Storage, key: &str, min: u32, max: u32) -> Result<Vec<ScoreValue>, u16> {
    let reply = reply_of(handle_zrange(storage, key, ScoreRange::new(min, max)));
    match (reply.status, reply.body) {
        (200, Body::Values(v)) => Ok(v),
        (status, _) => Err(status),
    }
}

fn zrmv(storage: &mut Storage, key: &str, value: &str) -> u16 {
    reply_of(handle_zrmv(storage, key, value)).status
}

fn list(storage: &Storage, keys: Vec<String>) -> Result<Vec<InsrtRequest>, u16> {
    let (mine, groups) = handle_list(storage, &keys);
    assert!(groups.is_empty());
    let reply = list_reply(mine, Vec::new());
    match (reply.status, reply.body) {
        (200, Body::Pairs(p)) => Ok(p),
        (status, _) => Err(status),
    }
}

fn batch(storage: &mut Storage, kvs: Vec<InsrtRequest>) -> u16 {
    let (_, groups) = handle_batch(storage, kvs);
    assert!(groups.is_empty());
    batch_reply(&Vec::new()).status
}

#[test]
fn init_answers_ok_once_the_load_completes() {
    let mut storage = Storage::new();
    assert_eq!(handle_init(&mut storage), InitStep::RunLoad);
    assert_eq!(handle_init(&mut storage), InitStep::Wait);
    let reply = finish_init(&mut storage, true);
    assert_eq!(reply, Reply { status: 200, body: Body::Text("ok".to_string()) });
    assert_eq!(
        handle_init(&mut storage),
        InitStep::Answer(Reply { status: 200, body: Body::Text("ok".to_string()) })
    );
}

#[test]
fn init_answers_400_when_the_load_fails() {
    let mut storage = Storage::new();
    assert_eq!(handle_init(&mut storage), InitStep::RunLoad);
    assert_eq!(finish_init(&mut storage, false), Reply { status: 400, body: Body::Empty });
    assert_eq!(handle_init(&mut storage), InitStep::Answer(Reply { status: 400, body: Body::Empty }));
}

#[test]
fn add_then_query() {
    let mut storage = Storage::new();
    assert_eq!(add(&mut storage, "hello", "world"), 200);
    assert_eq!(query(&storage, "hello"), Some("world".to_string()));
}

#[test]
fn add_persists_the_pair() {
    let mut storage = Storage::new();
    let step = handle_add(&mut storage, InsrtRequest::new("k".to_string(), "v".to_string()));
    assert_eq!(
        step,
        Step::Done(
            Reply { status: 200, body: Body::Empty },
            vec![Persist::PutKv("k".to_string(), "v".to_string())]
        )
    );
}

#[test]
fn del_removes_the_value() {
    let mut storage = Storage::new();
    add(&mut storage, "hello", "world");
    assert_eq!(del(&mut storage, "hello"), 200);
    assert_eq!(query(&storage, "hello"), None);
}

#[test]
fn query_of_a_missing_key_is_404() {
    let storage = Storage::new();
    let reply = reply_of(handle_query(&storage, "nothing"));
    assert_eq!(reply, Reply { status: 404, body: Body::Empty });
}

fn hundred_pairs() -> Vec<InsrtRequest> {
    (0..100).map(|i| InsrtRequest::new(format!("key{}", i), format!("value{}", i))).collect()
}

#[test]
fn batch_then_list_in_order() {
    let mut storage = Storage::new();
    assert_eq!(batch(&mut storage, hundred_pairs()), 200);
    let keys: Vec<String> = (0..100).map(|i| format!("key{}", i)).collect();
    let values = list(&storage, keys).unwrap();
    assert_eq!(values.len(), 100);
    for (i, value) in values.into_iter().enumerate() {
        assert_eq!(value.key, format!("key{}", i));
        assert_eq!(value.value, format!("value{}", i));
    }
}

#[test]
fn list_partial_hit() {
    let mut storage = Storage::new();
    batch(&mut storage, hundred_pairs());
    let keys: Vec<String> = (0..200).map(|i| format!("key{}", i)).collect();
    assert_eq!(list(&storage, keys).unwrap().len(), 100);
}

#[test]
fn list_all_miss_is_404() {
    let mut storage = Storage::new();
    batch(&mut storage, hundred_pairs());
    let keys: Vec<String> = (100..200).map(|i| format!("key{}", i)).collect();
    assert_eq!(list(&storage, keys), Err(404));
}

#[test]
fn list_dedups_keys() {
    let mut storage = Storage::new();
    add(&mut storage, "a", "1");
    add(&mut storage, "b", "2");
    let keys = vec!["b".to_string(), "a".to_string(), "b".to_string(), "c".to_string()];
    let values = list(&storage, keys).unwrap();
    assert_eq!(
        values,
        vec![
            InsrtRequest::new("b".to_string(), "2".to_string()),
            InsrtRequest::new("a".to_string(), "1".to_string())
        ]
    );
}

#[test]
fn batch_last_pair_wins() {
    let mut storage = Storage::new();
    let kvs = vec![
        InsrtRequest::new("k".to_string(), "1".to_string()),
        InsrtRequest::new("j".to_string(), "2".to_string()),
        InsrtRequest::new("k".to_string(), "3".to_string()),
    ];
    let (writes, groups) = handle_batch(&mut storage, kvs);
    assert!(groups.is_empty());
    assert_eq!(
        writes,
        vec![
            Persist::PutKv("k".to_string(), "1".to_string()),
            Persist::PutKv("j".to_string(), "2".to_string()),
            Persist::PutKv("k".to_string(), "3".to_string()),
        ]
    );
    assert_eq!(query(&storage, "k"), Some("3".to_string()));
    assert_eq!(query(&storage, "j"), Some("2".to_string()));
}

#[test]
fn zadd_then_zrange_half_scores() {
    let mut storage = Storage::new();
    for i in 0..100u32 {
        assert_eq!(zadd(&mut storage, "zset", i / 2, &format!("{}", i)), 200);
    }
    let values = zrange(&storage, "zset", 0, 49).unwrap();
    assert_eq!(values.len(), 100);
    for (i, v) in values.into_iter().enumerate() {
        assert_eq!(v.score, (i / 2) as u32);
        assert_eq!(v.value, format!("{}", i));
    }
}

#[test]
fn zadd_existing_values_moves_them() {
    let mut storage = Storage::new();
    for i in 0..100u32 {
        zadd(&mut storage, "zset", i / 2, &format!("{}", i));
    }
    for i in 0..100u32 {
        assert_eq!(zadd(&mut storage, "zset", i * 2, &format!("{}", i)), 200);
    }
    let values = zrange(&storage, "zset", 0, 198).unwrap();
    assert_eq!(values.len(), 100);
    for (i, v) in values.into_iter().enumerate() {
        assert_eq!(v.score, (i * 2) as u32);
        assert_eq!(v.value, format!("{}", i));
    }
}

#[test]
fn zrange_is_inclusive_and_filters() {
    let mut storage = Storage::new();
    zadd(&mut storage, "z", 5, "five");
    zadd(&mut storage, "z", 1, "one");
    zadd(&mut storage, "z", 9, "nine");
    zadd(&mut storage, "z", 3, "three");
    let values = zrange(&storage, "z", 3, 5).unwrap();
    assert_eq!(
        values,
        vec![ScoreValue::new(3, "three".to_string()), ScoreValue::new(5, "five".to_string())]
    );
    assert_eq!(zrange(&storage, "z", 6, 8).unwrap(), Vec::new());
    assert_eq!(zrange(&storage, "z", 9, 9).unwrap(), vec![ScoreValue::new(9, "nine".to_string())]);
}

#[test]
fn zrmv_keeps_an_empty_set() {
    let mut storage = Storage::new();
    for i in 0..100u32 {
        zadd(&mut storage, "zset", i * 2, &format!("{}", i));
    }
    assert_eq!(zrmv(&mut storage, "zset", "0"), 200);
    assert_eq!(zrange(&storage, "zset", 0, 0).unwrap().len(), 0);
    for i in 1..100 {
        assert_eq!(zrmv(&mut storage, "zset", &format!("{}", i)), 200);
    }
    assert_eq!(zrange(&storage, "zset", 0, 0).unwrap().len(), 0);
    assert_eq!(zrange(&storage, "zset", 0, u32::MAX).unwrap().len(), 0);
}

#[test]
fn zrmv_writes_only_when_the_member_was_there() {
    let mut storage = Storage::new();
    zadd(&mut storage, "z", 7, "m");
    let step = handle_zrmv(&mut storage, "z", "m");
    assert_eq!(
        step,
        Step::Done(Reply { status: 200, body: Body::Empty }, vec![Persist::DeleteZsetRow(vec![b'z', 0, b'm'])])
    );
    let step = handle_zrmv(&mut storage, "z", "m");
    assert_eq!(step, Step::Done(Reply { status: 200, body: Body::Empty }, Vec::new()));
    let step = handle_zrmv(&mut storage, "nothing", "m");
    assert_eq!(step, Step::Done(Reply { status: 200, body: Body::Empty }, Vec::new()));
}

#[test]
fn del_removes_a_sorted_set() {
    let mut storage = Storage::new();
    zadd(&mut storage, "zset", 1, "a");
    assert_eq!(del(&mut storage, "zset"), 200);
    assert_eq!(zrange(&storage, "zset", 0, 0), Err(404));
}

#[test]
fn add_overwrites_a_sorted_set() {
    let mut storage = Storage::new();
    assert_eq!(zadd(&mut storage, "zset", 0, "a"), 200);
    assert_eq!(zrange(&storage, "zset", 0, 0).unwrap().len(), 1);
    assert_eq!(add(&mut storage, "zset", "foo"), 200);
    assert_eq!(zadd(&mut storage, "zset", 0, "a"), 400);
    assert_eq!(zrange(&storage, "zset", 0, 0), Err(404));
    assert_eq!(query(&storage, "zset"), Some("foo".to_string()));
    assert_eq!(del(&mut storage, "zset"), 200);
    assert_eq!(query(&storage, "zset"), None);
    assert_eq!(zadd(&mut storage, "zset", 0, "a"), 200);
}

#[test]
fn refused_zadd_writes_nothing() {
    let mut storage = Storage::new();
    add(&mut storage, "k", "v");
    let step = handle_zadd(&mut storage, "k", ScoreValue::new(1, "m".to_string()));
    assert_eq!(step, Step::Done(Reply { status: 400, body: Body::Empty }, Vec::new()));
}

#[test]
fn accepted_zadd_writes_its_row() {
    let mut storage = Storage::new();
    let step = handle_zadd(&mut storage, "z", ScoreValue::new(258, "m".to_string()));
    assert_eq!(
        step,
        Step::Done(
            Reply { status: 200, body: Body::Empty },
            vec![Persist::PutZsetRow(vec![b'z', 0, b'm'], vec![2, 1, 0, 0])]
        )
    );
}

#[test]
fn zrange_of_a_missing_set_is_404() {
    let storage = Storage::new();
    assert_eq!(zrange(&storage, "none", 0, 10), Err(404));
    assert_eq!(zrange(&storage, "none", 10, 0), Err(404));
}

#[test]
fn batch_fails_when_a_peer_fails() {
    assert_eq!(batch_reply(&vec![Ok(()), Ok(())]), Reply { status: 200, body: Body::Empty });
    assert_eq!(batch_reply(&Vec::new()), Reply { status: 200, body: Body::Empty });
    assert_eq!(batch_reply(&vec![Ok(()), Err(())]), Reply { status: 400, body: Body::Empty });
    assert_eq!(batch_reply(&vec![Err(())]), Reply { status: 400, body: Body::Empty });
}

#[test]
fn reversed_range_on_a_set_is_empty() {
    let mut storage = Storage::new();
    zadd(&mut storage, "z", 5, "a");
    assert_eq!(zrange(&storage, "z", 9, 3), Ok(Vec::new()));
    assert_eq!(storage.zrange("z", ScoreRange::new(6, 5)), Some(Vec::new()));
}

#[test]
fn zadd_twice_equals_the_last_zadd() {
    let mut once = Storage::new();
    let mut twice = Storage::new();
    for s in [&mut once, &mut twice] {
        zadd(s, "z", 1, "a");
        zadd(s, "z", 4, "b");
    }
    zadd(&mut twice, "z", 9, "a");
    zadd(&mut twice, "z", 4, "a");
    zadd(&mut once, "z", 4, "a");
    let mut x = zrange(&once, "z", 0, 10).unwrap();
    let mut y = zrange(&twice, "z", 0, 10).unwrap();
    x.sort_by(|p, q| p.value.cmp(&q.value));
    y.sort_by(|p, q| p.value.cmp(&q.value));
    assert_eq!(x, y);
    assert_eq!(x, vec![ScoreValue::new(4, "a".to_string()), ScoreValue::new(4, "b".to_string())]);
}

#[test]
fn zadd_new_then_zrmv_restores_ranges() {
    let mut storage = Storage::new();
    zadd(&mut storage, "z", 3, "a");
    zadd(&mut storage, "z", 3, "b");
    zadd(&mut storage, "z", 7, "c");
    let before = zrange(&storage, "z", 0, 100).unwrap();
    zadd(&mut storage, "z", 3, "new");
    zrmv(&mut storage, "z", "new");
    assert_eq!(zrange(&storage, "z", 0, 100).unwrap(), before);
    assert_eq!(zrange(&storage, "z", 3, 3).unwrap().len(), 2);
}
