//! What the server answers to each request, given what the store holds (or
//! what a peer answered for a key that it owns).

use crate::dto::InsrtRequest;
use crate::dto::ScoreValue;
use crate::route::Route;
use crate::storage::pairs_view;
use crate::zset::score_values_view;
use vstd::prelude::*;

verus! {

/// HTTP 200 OK.
pub const STATUS_OK: u16 = 200;

/// HTTP 400 Bad Request.
pub const STATUS_BAD_REQUEST: u16 = 400;

/// HTTP 404 Not Found.
pub const STATUS_NOT_FOUND: u16 = 404;

/// HTTP 500 Internal Server Error.
pub const STATUS_INTERNAL_ERROR: u16 = 500;

/// The body of a reply, as a spec.
pub enum BodySpec {
    Empty,
    Text(Seq<char>),
    Values(Seq<(u32, Seq<char>)>),
    Pairs(Seq<(Seq<char>, Seq<char>)>),
}

/// The body of a reply.
#[derive(Debug, PartialEq, Eq)]
pub enum Body {
    /// Nothing.
    Empty,
    /// Plain text.
    Text(String),
    /// Sorted-set members with their scores, sent as a JSON array.
    Values(Vec<ScoreValue>),
    /// Key-value pairs, sent as a JSON array.
    Pairs(Vec<InsrtRequest>),
}

impl View for Body {
    type V = BodySpec;

    open spec fn view(&self) -> BodySpec {
        match self {
            Body::Empty => BodySpec::Empty,
            Body::Text(t) => BodySpec::Text(t@),
            Body::Values(v) => BodySpec::Values(score_values_view(v@)),
            Body::Pairs(p) => BodySpec::Pairs(pairs_view(p@)),
        }
    }
}

/// A reply: a status code and a body.
#[derive(Debug, PartialEq, Eq)]
pub struct Reply {
    pub status: u16,
    pub body: Body,
}

impl View for Reply {
    type V = (u16, BodySpec);

    open spec fn view(&self) -> (u16, BodySpec) {
        (self.status, self.body@)
    }
}

/// The reply with status 200 and body `ok`.
pub open spec fn ok_text() -> (u16, BodySpec) {
    (STATUS_OK, BodySpec::Text("ok"@))
}

fn text(status: u16, t: &str) -> (r: Reply)
    ensures
        r@ == (status, BodySpec::Text(t@)),
{
    Reply { status, body: Body::Text(t.to_owned()) }
}

fn empty(status: u16) -> (r: Reply)
    ensures
        r@ == (status, BodySpec::Empty),
{
    Reply { status, body: Body::Empty }
}

/// The reply to `QUERY`: the value (200), none (404), or the owning peer
/// could not be asked (500).
pub fn query_reply(value: Result<Option<String>, ()>) -> (r: Reply)
    ensures
        r@ == (match value {
            Ok(Some(v)) => (STATUS_OK, BodySpec::Text(v@)),
            Ok(None) => (STATUS_NOT_FOUND, BodySpec::Empty),
            Err(_) => (STATUS_INTERNAL_ERROR, BodySpec::Empty),
        }),
{
    match value {
        Ok(Some(v)) => Reply { status: STATUS_OK, body: Body::Text(v) },
        Ok(None) => empty(STATUS_NOT_FOUND),
        Err(_) => empty(STATUS_INTERNAL_ERROR),
    }
}

/// The reply to a request that only has to be carried out (`DEL`, `ADD`,
/// `ZRMV`, `BATCH`): 200, or 500 when the owning peer could not be asked.
pub fn done_reply(outcome: Result<(), ()>) -> (r: Reply)
    ensures
        r@ == (if outcome is Ok {
            (STATUS_OK, BodySpec::Empty)
        } else {
            (STATUS_INTERNAL_ERROR, BodySpec::Empty)
        }),
{
    match outcome {
        Ok(()) => empty(STATUS_OK),
        Err(()) => empty(STATUS_INTERNAL_ERROR),
    }
}

/// The reply to `ZADD`: 200 when done, 400 when the key holds a plain
/// value, 500 when the owning peer could not be asked (the outer `Err`).
pub fn zadd_reply(outcome: Result<Result<(), ()>, ()>) -> (r: Reply)
    ensures
        r@ == (match outcome {
            Ok(Ok(())) => (STATUS_OK, BodySpec::Empty),
            Ok(Err(())) => (STATUS_BAD_REQUEST, BodySpec::Empty),
            Err(()) => (STATUS_INTERNAL_ERROR, BodySpec::Empty),
        }),
{
    match outcome {
        Ok(Ok(())) => empty(STATUS_OK),
        Ok(Err(())) => empty(STATUS_BAD_REQUEST),
        Err(()) => empty(STATUS_INTERNAL_ERROR),
    }
}

/// The reply to `ZRANGE`: the members (200), no such set (404), or the
/// owning peer could not be asked (500).
pub fn zrange_reply(values: Result<Option<Vec<ScoreValue>>, ()>) -> (r: Reply)
    ensures
        r@ == (match values {
            Ok(Some(v)) => (STATUS_OK, BodySpec::Values(score_values_view(v@))),
            Ok(None) => (STATUS_NOT_FOUND, BodySpec::Empty),
            Err(_) => (STATUS_INTERNAL_ERROR, BodySpec::Empty),
        }),
{
    match values {
        Ok(Some(v)) => Reply { status: STATUS_OK, body: Body::Values(v) },
        Ok(None) => empty(STATUS_NOT_FOUND),
        Err(_) => empty(STATUS_INTERNAL_ERROR),
    }
}

/// The pairs that the answers hold, in order; failed answers hold none.
pub open spec fn answered_pairs(answers: Seq<Result<Vec<InsrtRequest>, ()>>) -> Seq<
    (Seq<char>, Seq<char>),
>
    decreases answers.len(),
{
    if answers.len() == 0 {
        Seq::empty()
    } else {
        answered_pairs(answers.drop_last()) + match answers.last() {
            Ok(p) => pairs_view(p@),
            Err(_) => Seq::empty(),
        }
    }
}

/// The reply to `LIST`: this node's pairs followed by the pairs that the
/// peers answered (a peer that could not be asked adds none); 404 when
/// there are none at all.
pub fn list_reply(mine: Vec<InsrtRequest>, answers: Vec<Result<Vec<InsrtRequest>, ()>>) -> (r: Reply)
    ensures
        ({
            let all = pairs_view(mine@) + answered_pairs(answers@);
            r@ == (if all.len() == 0 {
                (STATUS_NOT_FOUND, BodySpec::Empty)
            } else {
                (STATUS_OK, BodySpec::Pairs(all))
            })
        }),
{
    let mut result = mine;
    let ghost base = pairs_view(result@);
    let ghost all_answers = answers@;
    for a in it: answers.into_iter()
        invariant
            it.seq() == all_answers,
            pairs_view(result@) == base + answered_pairs(it.seq().take(it.index())),
    {
        let ghost before = pairs_view(result@);
        let ghost idx = it.index();
        assert(it.seq().take(idx + 1).drop_last() =~= it.seq().take(idx));
        match a {
            Ok(mut p) => {
                let ghost pv = pairs_view(p@);
                result.append(&mut p);
                assert(pairs_view(result@) =~= before + pv);
            },
            Err(_) => {
                assert(pairs_view(result@) =~= before + Seq::empty());
            },
        }
    }
    assert(all_answers.take(all_answers.len() as int) =~= all_answers);
    if result.len() == 0 {
        empty(STATUS_NOT_FOUND)
    } else {
        Reply { status: STATUS_OK, body: Body::Pairs(result) }
    }
}


/// The reply to `POST /updateCluster`: `ok` when the description was
/// saved, `fail` otherwise (both with status 200).
pub fn update_cluster_reply(saved: bool) -> (r: Reply)
    ensures
        r@ == (if saved {
            ok_text()
        } else {
            (STATUS_OK, BodySpec::Text("fail"@))
        }),
{
    if saved {
        text(STATUS_OK, "ok")
    } else {
        text(STATUS_OK, "fail")
    }
}

/// The reply to `GET /init` once start-up is over: `ok` (200) when it
/// completed, 400 with no body when it failed.
pub fn init_reply(loaded: bool) -> (r: Reply)
    ensures
        r@ == (if loaded {
            ok_text()
        } else {
            (STATUS_BAD_REQUEST, BodySpec::Empty)
        }),
{
    if loaded {
        text(STATUS_OK, "ok")
    } else {
        empty(STATUS_BAD_REQUEST)
    }
}

/// The replies that do not depend on the store: any other `GET` path is
/// answered `ok`, any other `POST` path 404 with no body, any other method
/// 404 with the text `404 not found`. `None` for the routes that the
/// handlers serve.
pub fn fixed_reply(route: &Route) -> (r: Option<Reply>)
    ensures
        match route {
            Route::Ping => r matches Some(x) && x@ == ok_text(),
            Route::UnknownPost => r matches Some(x) && x@ == (STATUS_NOT_FOUND, BodySpec::Empty),
            Route::UnknownMethod => r matches Some(x) && x@ == (STATUS_NOT_FOUND, BodySpec::Text("404 not found"@)),
            _ => r is None,
        },
{
    match route {
        Route::Ping => Some(text(STATUS_OK, "ok")),
        Route::UnknownPost => Some(empty(STATUS_NOT_FOUND)),
        Route::UnknownMethod => Some(text(STATUS_NOT_FOUND, "404 not found")),
        _ => None,
    }
}

} // verus!
