use hcache::codec::decode_score;
use hcache::codec::encode_score;
use hcache::dto::InsrtRequest;
use hcache::dto::ScoreValue;
use hcache::dto::UpdateCluster;
use hcache::handler::done_reply;
use hcache::handler::fixed_reply;
use hcache::handler::list_reply;
use hcache::handler::query_reply;
use hcache::handler::update_cluster_reply;
use hcache::handler::zadd_reply;
use hcache::handler::zrange_reply;
use hcache::handler::Body;
use hcache::handler::Reply;
use hcache::http_parser::HttpMethod;
use hcache::http_parser::HttpRequestParserState;
use hcache::http_parser::ParserContext;
use hcache::http_parser::HTTP_200;
use hcache::route::route;
use hcache::route::split_path;
use hcache::route::Method;
use hcache::route::Route;
use hcache::server::handle_add;
use hcache::server::handle_batch;
use hcache::server::handle_list;
use hcache::server::handle_query;
use hcache::server::take_cluster_info;
use hcache::server::Step;
use hcache::shard::get_shard;
use hcache::shard::hash_key;
use hcache::shard::partition_by_shard;
use hcache::shard::partition_keys_by_shard;
use hcache::storage::distinct_keys;
use hcache::storage::Storage;
use hcache::storage::LOAD_STATE_FAILED;
use hcache::storage::LOAD_STATE_INIT;
use hcache::storage::LOAD_STATE_LOADED;
use hcache::storage::LOAD_STATE_LOADING;
use hcache::zset::ZSet;
use std::collections::hash_map::DefaultHasher;
use std::hash::Hash;
use std::hash::Hasher;

fn std_hash(key: &str) -> u64 {
    let mut hasher = DefaultHasher::new();
    key.hash(&mut hasher);
    hasher.finish()
}

#[test]
fn hash_key_is_the_default_hasher() {
    for key in ["", "a", "hello", "key42", "zset"] {
        assert_eq!(hash_key(key), std_hash(key));
    }
    assert_ne!(hash_key("a"), hash_key("b"));
}

#[test]
fn get_shard_is_hash_modulo_count() {
    assert_eq!(get_shard("anything", 0), 0);
    for key in ["a", "b", "hello", "key7"] {
        assert_eq!(get_shard(key, 1), 0);
        assert_eq!(get_shard(key, 3), (std_hash(key) % 3) as usize);
        assert!(get_shard(key, 5) < 5);
    }
}

#[test]
fn zset_table_shard_is_low_hash_bits() {
    for key in ["a", "zset", "hello"] {
        assert_eq!(hcache::zset_table::get_shard(key), (std_hash(key) as usize) & 255);
    }
}

#[test]
fn row_key_layout_and_roundtrip() {
    let key = Storage::get_zset_key("set", "member");
    assert_eq!(key, b"set\0member".to_vec());
    assert_eq!(Storage::decode_zset_key(&key), ("set".to_string(), "member".to_string()));
    assert_eq!(Storage::decode_zset_key(b"a\0b\0c"), ("a".to_string(), "b\0c".to_string()));
    assert_eq!(Storage::decode_zset_key(b"\0"), (String::new(), String::new()));
    let key = Storage::get_zset_key("n\u{e9}", "\u{1f600}");
    assert_eq!(Storage::decode_zset_key(&key), ("n\u{e9}".to_string(), "\u{1f600}".to_string()));
}

#[test]
fn score_bytes_are_little_endian() {
    assert_eq!(encode_score(0x01020304), vec![4, 3, 2, 1]);
    assert_eq!(decode_score(&[4, 3, 2, 1]), 0x01020304);
    assert_eq!(decode_score(&encode_score(u32::MAX)), u32::MAX);
    assert_eq!(decode_score(&encode_score(7)), 7);
}

#[test]
fn split_path_is_splitn() {
    assert_eq!(split_path("/query/k", 4), vec!["", "query", "k"]);
    assert_eq!(split_path("/zrmv/k/v/w", 4), vec!["", "zrmv", "k", "v/w"]);
    assert_eq!(split_path("/zadd/a/b", 3), vec!["", "zadd", "a/b"]);
    assert_eq!(split_path("", 4), vec![""]);
    assert_eq!(split_path("abc", 1), vec!["abc"]);
}

#[test]
fn get_routes() {
    assert_eq!(route(Method::Get, "/query/abc"), Route::Query("abc".to_string()));
    assert_eq!(route(Method::Get, "/del/abc"), Route::Del("abc".to_string()));
    assert_eq!(route(Method::Get, "/zrmv/s/m"), Route::Zrmv("s".to_string(), "m".to_string()));
    assert_eq!(route(Method::Get, "/init"), Route::Init);
    assert_eq!(route(Method::Get, "/"), Route::Ping);
    assert_eq!(route(Method::Get, "/anything/else"), Route::Ping);
    assert_eq!(route(Method::Get, "/query"), Route::Malformed);
    assert_eq!(route(Method::Get, "/zrmv/s"), Route::Malformed);
    assert_eq!(route(Method::Get, "noslash"), Route::Malformed);
}

#[test]
fn post_routes() {
    assert_eq!(route(Method::Post, "/add"), Route::Add);
    assert_eq!(route(Method::Post, "/batch"), Route::Batch);
    assert_eq!(route(Method::Post, "/list"), Route::List);
    assert_eq!(route(Method::Post, "/zadd/s"), Route::Zadd("s".to_string()));
    assert_eq!(route(Method::Post, "/zrange/s/t"), Route::Zrange("s/t".to_string()));
    assert_eq!(route(Method::Post, "/updateCluster"), Route::UpdateCluster);
    assert_eq!(route(Method::Post, "/other"), Route::UnknownPost);
    assert_eq!(route(Method::Post, "/zadd"), Route::Malformed);
    assert_eq!(route(Method::Other, "/query/abc"), Route::UnknownMethod);
}

#[test]
fn fixed_replies() {
    assert_eq!(fixed_reply(&Route::Ping), Some(Reply { status: 200, body: Body::Text("ok".to_string()) }));
    assert_eq!(fixed_reply(&Route::UnknownPost), Some(Reply { status: 404, body: Body::Empty }));
    assert_eq!(
        fixed_reply(&Route::UnknownMethod),
        Some(Reply { status: 404, body: Body::Text("404 not found".to_string()) })
    );
    assert_eq!(fixed_reply(&Route::Add), None);
    assert_eq!(fixed_reply(&Route::Init), None);
}

#[test]
fn replies_to_peer_failures() {
    assert_eq!(query_reply(Err(())), Reply { status: 500, body: Body::Empty });
    assert_eq!(query_reply(Ok(None)), Reply { status: 404, body: Body::Empty });
    assert_eq!(query_reply(Ok(Some("v".to_string()))), Reply { status: 200, body: Body::Text("v".to_string()) });
    assert_eq!(done_reply(Ok(())), Reply { status: 200, body: Body::Empty });
    assert_eq!(done_reply(Err(())), Reply { status: 500, body: Body::Empty });
    assert_eq!(zadd_reply(Ok(Ok(()))), Reply { status: 200, body: Body::Empty });
    assert_eq!(zadd_reply(Ok(Err(()))), Reply { status: 400, body: Body::Empty });
    assert_eq!(zadd_reply(Err(())), Reply { status: 500, body: Body::Empty });
    assert_eq!(zrange_reply(Ok(None)), Reply { status: 404, body: Body::Empty });
    assert_eq!(zrange_reply(Err(())), Reply { status: 500, body: Body::Empty });
    assert_eq!(
        zrange_reply(Ok(Some(vec![ScoreValue::new(1, "a".to_string())]))),
        Reply { status: 200, body: Body::Values(vec![ScoreValue::new(1, "a".to_string())]) }
    );
    assert_eq!(update_cluster_reply(true), Reply { status: 200, body: Body::Text("ok".to_string()) });
    assert_eq!(update_cluster_reply(false), Reply { status: 200, body: Body::Text("fail".to_string()) });
}

#[test]
fn list_reply_joins_answers() {
    let a = InsrtRequest::new("a".to_string(), "1".to_string());
    let b = InsrtRequest::new("b".to_string(), "2".to_string());
    let c = InsrtRequest::new("c".to_string(), "3".to_string());
    let reply = list_reply(vec![a.clone()], vec![Ok(vec![b.clone()]), Err(()), Ok(vec![c.clone()])]);
    assert_eq!(reply, Reply { status: 200, body: Body::Pairs(vec![a, b, c]) });
    let reply = list_reply(Vec::new(), vec![Err(()), Ok(Vec::new())]);
    assert_eq!(reply, Reply { status: 404, body: Body::Empty });
    let reply = list_reply(Vec::new(), vec![Ok(vec![InsrtRequest::new("x".to_string(), "y".to_string())])]);
    assert_eq!(reply.status, 200);
}

#[test]
fn distinct_keys_keeps_first_occurrences() {
    let keys: Vec<String> = ["b", "a", "b", "c", "a"].iter().map(|s| s.to_string()).collect();
    assert_eq!(distinct_keys(&keys), vec!["b".to_string(), "a".to_string(), "c".to_string()]);
    assert_eq!(distinct_keys(&Vec::new()), Vec::<String>::new());
}

#[test]
fn partition_by_node() {
    let kvs: Vec<InsrtRequest> =
        (0..40).map(|i| InsrtRequest::new(format!("k{}", i), format!("v{}", i))).collect();
    let (mine, groups) = partition_by_shard(&kvs, 3, 1);
    let expect_mine: Vec<InsrtRequest> = kvs.iter().filter(|kv| get_shard(&kv.key, 3) == 1).cloned().collect();
    assert_eq!(mine, expect_mine);
    let mut total = mine.len();
    let mut seen = Vec::new();
    for (node, pairs) in groups.iter() {
        assert_ne!(*node, 1);
        assert!(!seen.contains(node));
        seen.push(*node);
        let expect: Vec<InsrtRequest> =
            kvs.iter().filter(|kv| get_shard(&kv.key, 3) == *node as usize).cloned().collect();
        assert_eq!(*pairs, expect);
        total += pairs.len();
    }
    assert_eq!(total, 40);
}

#[test]
fn partition_keys_by_node() {
    let mut keys: Vec<String> = (0..30).map(|i| format!("k{}", i)).collect();
    keys.push("k3".to_string());
    let (mine, groups) = partition_keys_by_shard(&keys, 4, 0);
    let distinct: Vec<String> = (0..30).map(|i| format!("k{}", i)).collect();
    let expect_mine: Vec<String> = distinct.iter().filter(|k| get_shard(k.as_str(), 4) == 0).cloned().collect();
    assert_eq!(mine, expect_mine);
    let mut total = mine.len();
    for (node, ks) in groups.iter() {
        assert_ne!(*node, 0);
        let expect: Vec<String> =
            distinct.iter().filter(|k| get_shard(k.as_str(), 4) == *node as usize).cloned().collect();
        assert_eq!(*ks, expect);
        total += ks.len();
    }
    assert_eq!(total, 30);
}

#[test]
fn cluster_info_is_taken_once() {
    let mut storage = Storage::new();
    assert_eq!(storage.me(), 0);
    assert_eq!(storage.count(), 0);
    let info = UpdateCluster { hosts: vec!["a:1".to_string(), "b:1".to_string(), "c:1".to_string()], index: 2 };
    assert!(!storage.peer_updated());
    assert!(take_cluster_info(&mut storage, &info));
    assert!(storage.peer_updated());
    assert_eq!(storage.me(), 1);
    assert_eq!(storage.count(), 3);
    let other = UpdateCluster { hosts: vec!["x:1".to_string()], index: 1 };
    assert!(!take_cluster_info(&mut storage, &other));
    assert_eq!(storage.me(), 1);
    assert_eq!(storage.count(), 3);
}

#[test]
fn requests_for_other_nodes_are_forwarded() {
    let mut storage = Storage::new();
    let info = UpdateCluster { hosts: vec!["a".to_string(), "b".to_string(), "c".to_string()], index: 1 };
    take_cluster_info(&mut storage, &info);
    for i in 0..30 {
        let key = format!("key{}", i);
        let shard = get_shard(key.as_str(), 3);
        let step = handle_add(&mut storage, InsrtRequest::new(key.clone(), "v".to_string()));
        if shard == 0 {
            assert_eq!(storage.locate(&key), None);
            assert!(matches!(step, Step::Done(_, _)));
            assert_eq!(storage.get_kv(&key), Some("v".to_string()));
        } else {
            assert_eq!(storage.locate(&key), Some(shard));
            assert_eq!(step, Step::Forward(shard));
            assert_eq!(storage.get_kv(&key), None);
            assert_eq!(handle_query(&storage, &key), Step::Forward(shard));
        }
    }
}

#[test]
fn batch_and_list_split_by_node() {
    let mut storage = Storage::new();
    let info = UpdateCluster { hosts: vec!["a".to_string(), "b".to_string()], index: 2 };
    take_cluster_info(&mut storage, &info);
    let kvs: Vec<InsrtRequest> =
        (0..20).map(|i| InsrtRequest::new(format!("k{}", i), format!("v{}", i))).collect();
    let (writes, groups) = handle_batch(&mut storage, kvs.clone());
    assert_eq!(writes.len(), kvs.iter().filter(|kv| get_shard(&kv.key, 2) == 1).count());
    let others: Vec<InsrtRequest> = kvs.iter().filter(|kv| get_shard(&kv.key, 2) == 0).cloned().collect();
    if others.is_empty() {
        assert!(groups.is_empty());
    } else {
        assert_eq!(groups, vec![(0u32, others)]);
    }
    let keys: Vec<String> = kvs.iter().map(|kv| kv.key.clone()).collect();
    let (mine, _) = handle_list(&storage, &keys);
    let expect: Vec<InsrtRequest> = kvs.iter().filter(|kv| get_shard(&kv.key, 2) == 1).cloned().collect();
    assert_eq!(mine, expect);
}

#[test]
fn load_rows_at_start_up() {
    let mut storage = Storage::new();
    storage.load_kv_entry(b"plain", b"text");
    assert_eq!(storage.get_kv("plain"), Some("text".to_string()));
    assert!(storage.load_zset_entry(&Storage::get_zset_key("z", "m"), &encode_score(9)));
    assert_eq!(storage.zrange("z", hcache::dto::ScoreRange::new(0, 10)), Some(vec![ScoreValue::new(9, "m".to_string())]));
    assert!(!storage.load_zset_entry(&Storage::get_zset_key("plain", "m"), &encode_score(1)));
    assert_eq!(storage.zrange("plain", hcache::dto::ScoreRange::new(0, 10)), None);
}

#[test]
fn load_state_moves_forward() {
    let mut storage = Storage::new();
    assert_eq!(storage.load_state(), LOAD_STATE_INIT);
    assert!(storage.begin_loading());
    assert_eq!(storage.load_state(), LOAD_STATE_LOADING);
    assert!(!storage.begin_loading());
    storage.finish_loading(true);
    assert_eq!(storage.load_state(), LOAD_STATE_LOADED);
    assert!(!storage.begin_loading());
    let mut failed = Storage::new();
    assert!(failed.begin_loading());
    failed.finish_loading(false);
    assert_eq!(failed.load_state(), LOAD_STATE_FAILED);
}

#[test]
fn storage_direct_operations() {
    let mut storage = Storage::new();
    assert_eq!(storage.insert_kv("a", "1"), Ok(()));
    assert_eq!(storage.remove_key("a"), Ok(()));
    assert_eq!(storage.get_kv("a"), None);
    assert_eq!(storage.zadd("s", ScoreValue::new(3, "x".to_string())), Ok(()));
    assert_eq!(storage.zrmv("s", "x"), Some(3));
    assert_eq!(storage.zrmv("s", "x"), None);
    storage.insert_kv("s", "v").unwrap();
    assert_eq!(storage.zadd("s", ScoreValue::new(3, "x".to_string())), Err(()));
    let pairs = vec![InsrtRequest::new("p".to_string(), "1".to_string())];
    assert_eq!(storage.batch_insert_kv(pairs), Ok(()));
    let found = storage.list_keys(&vec!["p".to_string(), "q".to_string(), "p".to_string()]);
    assert_eq!(found, vec![InsrtRequest::new("p".to_string(), "1".to_string())]);
}

#[test]
fn zset_moves_members_between_scores() {
    let mut z = ZSet::new();
    z.add("a".to_string(), 5);
    z.add("b".to_string(), 5);
    z.add("c".to_string(), 1);
    assert_eq!(
        z.range(0, 10),
        vec![
            ScoreValue::new(1, "c".to_string()),
            ScoreValue::new(5, "a".to_string()),
            ScoreValue::new(5, "b".to_string())
        ]
    );
    z.add("a".to_string(), 5);
    z.add("c".to_string(), 5);
    assert_eq!(
        z.range(5, 5),
        vec![
            ScoreValue::new(5, "a".to_string()),
            ScoreValue::new(5, "b".to_string()),
            ScoreValue::new(5, "c".to_string())
        ]
    );
    assert_eq!(z.remove("b"), Some(5));
    assert_eq!(z.remove("b"), None);
    assert_eq!(z.range(0, u32::MAX).len(), 2);
}

#[test]
fn parser_answers_get_init() {
    let mut ctx = ParserContext::new();
    assert_eq!(ctx.state, HttpRequestParserState::ParseMethod);
    assert_eq!(ctx.method, HttpMethod::Unknown);
    let buf = b"GET /init HTTP/1.1\r\n\r\n";
    assert_eq!(ctx.feed(buf, 0), (6, true));
    assert_eq!(ctx.method, HttpMethod::Get);
    assert_eq!(ctx.state, HttpRequestParserState::SkipHeaderNoBody(0));
    assert!(ctx.body.is_empty());
    assert!(ctx.path.is_empty());
    assert_eq!(HTTP_200, "HTTP/1.1 200 OK\r\n\r\n");
}

#[test]
fn parser_answers_a_request_once() {
    let mut ctx = ParserContext::new();
    let buf = b"GET /init HTTP/1.1\r\nHost: x\r\n\r\n";
    let mut pos = 0;
    let mut answers = 0;
    loop {
        let (next, answer) = ctx.feed(buf, pos);
        pos = next;
        if !answer {
            break;
        }
        answers += 1;
    }
    assert_eq!(answers, 1);
    assert_eq!(pos, buf.len());
    assert_eq!(ctx.state, HttpRequestParserState::ParseMethod);
}

#[test]
fn parser_answers_each_pipelined_request() {
    let mut ctx = ParserContext::new();
    let buf = b"GET /init HTTP/1.1\r\n\r\nPOST /add HTTP/1.1\r\n\r\n";
    assert_eq!(ctx.feed(buf, 0), (6, true));
    assert_eq!(ctx.feed(buf, 6), (29, true));
    assert_eq!(ctx.method, HttpMethod::Post);
    assert_eq!(ctx.feed(buf, 29), (buf.len(), false));
    assert_eq!(ctx.state, HttpRequestParserState::ParseMethod);
}

#[test]
fn parser_finds_a_header_end_split_across_reads() {
    let mut ctx = ParserContext::new();
    assert_eq!(ctx.feed(b"GET /init HTTP/1.1\r\n\r", 0), (6, true));
    assert_eq!(ctx.feed(b"GET /init HTTP/1.1\r\n\r", 6), (21, false));
    assert_eq!(ctx.state, HttpRequestParserState::SkipHeaderNoBody(3));
    assert_eq!(ctx.feed(b"\n", 0), (1, false));
    assert_eq!(ctx.state, HttpRequestParserState::ParseMethod);
}

#[test]
fn parser_reads_post_paths() {
    let mut ctx = ParserContext::new();
    assert_eq!(ctx.feed(b"POST /add", 0), (7, true));
    assert_eq!(ctx.method, HttpMethod::Post);

    let mut ctx = ParserContext::new();
    assert_eq!(ctx.step(b"POST /zadd/k", 0), (1, false));
    assert_eq!(ctx.state, HttpRequestParserState::SkipBeforePath(5));
    assert_eq!(ctx.step(b"POST /zadd/k", 1), (6, false));
    assert_eq!(ctx.state, HttpRequestParserState::ParsePath);
    assert_eq!(ctx.step(b"POST /zadd/k", 6), (7, false));
    assert_eq!(ctx.state, HttpRequestParserState::AddOrRange);
    assert_eq!(ctx.step(b"POST /zadd/k", 7), (8, false));
    assert_eq!(ctx.state, HttpRequestParserState::AddGetBody(0));
    assert_eq!(ctx.step(b"POST /zadd/k", 8), (8, true));
    assert_eq!(ctx.state, HttpRequestParserState::SkipHeaderNoBody(0));

    let mut ctx = ParserContext::new();
    assert_eq!(ctx.feed(b"POST /zrange/k", 0), (8, true));

    let mut ctx = ParserContext::new();
    ctx.feed(b"POST /list", 0);
    assert_eq!(ctx.state, HttpRequestParserState::SkipHeaderNoBody(0));
}

#[test]
fn parser_resumes_across_reads() {
    let mut ctx = ParserContext::new();
    assert_eq!(ctx.feed(b"GE", 0), (2, false));
    assert_eq!(ctx.state, HttpRequestParserState::SkipBeforePath(3));
    assert_eq!(ctx.feed(b"T /del/k", 0), (4, true));
    assert_eq!(ctx.state, HttpRequestParserState::SkipHeaderNoBody(0));
    assert_eq!(ctx.feed(b"", 0), (0, false));
}

#[test]
fn reload_gives_back_what_was_written() {
    let mut first = Storage::new();
    let mut rows = Vec::new();
    for step in [
        handle_add(&mut first, InsrtRequest::new("k".to_string(), "v".to_string())),
        hcache::server::handle_zadd(&mut first, "z", ScoreValue::new(7, "m".to_string())),
        hcache::server::handle_zadd(&mut first, "z", ScoreValue::new(2, "n".to_string())),
    ] {
        match step {
            Step::Done(_, writes) => rows.extend(writes),
            Step::Forward(_) => panic!("forwarded"),
        }
    }
    let mut second = Storage::new();
    for row in &rows {
        match row {
            hcache::server::Persist::PutKv(k, v) => second.load_kv_entry(k.as_bytes(), v.as_bytes()),
            _ => {}
        }
    }
    for row in &rows {
        if let hcache::server::Persist::PutZsetRow(k, v) = row {
            assert!(second.load_zset_entry(k, v));
        }
    }
    assert_eq!(second.get_kv("k"), Some("v".to_string()));
    let range = hcache::dto::ScoreRange::new(0, 10);
    assert_eq!(second.zrange("z", range.clone()), first.zrange("z", range));
}
