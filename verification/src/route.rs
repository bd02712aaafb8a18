//! Which operation an HTTP request asks for, from its method and path.

use crate::text::str_eq;
use crate::zset::strings_view;
use vstd::prelude::*;

verus! {

/// The HTTP methods the server tells apart.
#[derive(Debug, Clone, Copy, PartialEq, Eq)]
pub enum Method {
    Get,
    Post,
    Other,
}

/// The position of the first `'/'` in `s`, if any.
pub open spec fn first_slash(s: Seq<char>) -> Option<int> {
    if exists|i: int| 0 <= i < s.len() && s[i] == '/' {
        Some(choose|i: int| 0 <= i < s.len() && s[i] == '/' && forall|j: int| 0 <= j < i ==> s[j] != '/')
    } else {
        None
    }
}

/// `str::splitn(n, "/")` for `n >= 1`: the pieces between slashes, at most
/// `n` of them, the last holding the rest of the text.
#[verifier::opaque]
pub open spec fn split_slash(s: Seq<char>, n: nat) -> Seq<Seq<char>>
    decreases n,
{
    if n <= 1 {
        seq![s]
    } else {
        match first_slash(s) {
            Some(i) => seq![s.take(i)] + split_slash(s.skip(i + 1), (n - 1) as nat),
            None => seq![s],
        }
    }
}

/// The operation a request asks for, as a spec.
pub enum RouteSpec {
    Query(Seq<char>),
    Del(Seq<char>),
    Zrmv(Seq<char>, Seq<char>),
    Init,
    Ping,
    Add,
    Batch,
    List,
    Zadd(Seq<char>),
    Zrange(Seq<char>),
    UpdateCluster,
    UnknownPost,
    UnknownMethod,
    Malformed,
}

/// The operation a request asks for.
#[derive(Debug, PartialEq, Eq)]
pub enum Route {
    /// `GET /query/{key}`
    Query(String),
    /// `GET /del/{key}`
    Del(String),
    /// `GET /zrmv/{key}/{value}`
    Zrmv(String, String),
    /// `GET /init`
    Init,
    /// Any other `GET`: answered `ok`.
    Ping,
    /// `POST /add`
    Add,
    /// `POST /batch`
    Batch,
    /// `POST /list`
    List,
    /// `POST /zadd/{key}`
    Zadd(String),
    /// `POST /zrange/{key}`
    Zrange(String),
    /// `POST /updateCluster`
    UpdateCluster,
    /// Any other `POST`: not found.
    UnknownPost,
    /// Neither `GET` nor `POST`: not found.
    UnknownMethod,
    /// A path that lacks a piece the operation needs.
    Malformed,
}

impl View for Route {
    type V = RouteSpec;

    open spec fn view(&self) -> RouteSpec {
        match self {
            Route::Query(k) => RouteSpec::Query(k@),
            Route::Del(k) => RouteSpec::Del(k@),
            Route::Zrmv(k, v) => RouteSpec::Zrmv(k@, v@),
            Route::Init => RouteSpec::Init,
            Route::Ping => RouteSpec::Ping,
            Route::Add => RouteSpec::Add,
            Route::Batch => RouteSpec::Batch,
            Route::List => RouteSpec::List,
            Route::Zadd(k) => RouteSpec::Zadd(k@),
            Route::Zrange(k) => RouteSpec::Zrange(k@),
            Route::UpdateCluster => RouteSpec::UpdateCluster,
            Route::UnknownPost => RouteSpec::UnknownPost,
            Route::UnknownMethod => RouteSpec::UnknownMethod,
            Route::Malformed => RouteSpec::Malformed,
        }
    }
}

/// The operation of a `GET` with this path.
pub open spec fn route_get(path: Seq<char>) -> RouteSpec {
    let p = split_slash(path, 4);
    if p.len() < 2 {
        RouteSpec::Malformed
    } else if p[1] == "query"@ {
        if p.len() < 3 { RouteSpec::Malformed } else { RouteSpec::Query(p[2]) }
    } else if p[1] == "del"@ {
        if p.len() < 3 { RouteSpec::Malformed } else { RouteSpec::Del(p[2]) }
    } else if p[1] == "zrmv"@ {
        if p.len() < 4 { RouteSpec::Malformed } else { RouteSpec::Zrmv(p[2], p[3]) }
    } else if p[1] == "init"@ {
        RouteSpec::Init
    } else {
        RouteSpec::Ping
    }
}

/// The operation of a `POST` with this path.
pub open spec fn route_post(path: Seq<char>) -> RouteSpec {
    let p = split_slash(path, 3);
    if p.len() < 2 {
        RouteSpec::Malformed
    } else if p[1] == "add"@ {
        RouteSpec::Add
    } else if p[1] == "batch"@ {
        RouteSpec::Batch
    } else if p[1] == "list"@ {
        RouteSpec::List
    } else if p[1] == "zadd"@ {
        if p.len() < 3 { RouteSpec::Malformed } else { RouteSpec::Zadd(p[2]) }
    } else if p[1] == "zrange"@ {
        if p.len() < 3 { RouteSpec::Malformed } else { RouteSpec::Zrange(p[2]) }
    } else if p[1] == "updateCluster"@ {
        RouteSpec::UpdateCluster
    } else {
        RouteSpec::UnknownPost
    }
}

/// The operation of a request.
pub open spec fn route_spec(method: Method, path: Seq<char>) -> RouteSpec {
    match method {
        Method::Get => route_get(path),
        Method::Post => route_post(path),
        Method::Other => RouteSpec::UnknownMethod,
    }
}

/// The characters of a string.
fn chars_of(s: &str) -> (r: Vec<char>)
    ensures
        r@ == s@,
{
    broadcast use vstd::string::group_string_axioms;

    let mut out: Vec<char> = Vec::new();
    for c in it: s.chars()
        invariant
            it.seq() == s@,
            out@ == it.seq().take(it.index()),
    {
        out.push(c);
        assert(out@ =~= it.seq().take(it.index() + 1));
    }
    assert(out@ =~= s@);
    out
}

/// The position of the first `'/'` at or after `from`, if any.
fn next_slash(cs: &Vec<char>, from: usize) -> (r: Option<usize>)
    requires
        from <= cs@.len(),
    ensures
        r matches Some(j) ==> from <= j < cs@.len() && first_slash(cs@.skip(from as int)) == Some(j - from),
        r is None ==> first_slash(cs@.skip(from as int)) is None,
{
    let ghost t = cs@.skip(from as int);
    let mut j = from;
    while j < cs.len()
        invariant
            from <= j <= cs@.len(),
            t == cs@.skip(from as int),
            forall|l: int| from <= l < j ==> cs@[l] != '/',
        decreases cs.len() - j,
    {
        if cs[j] == '/' {
            proof {
                let i = (j - from) as int;
                assert(t[i] == '/');
                let k = choose|k: int| 0 <= k < t.len() && t[k] == '/' && forall|l: int| 0 <= l < k ==> t[l] != '/';
                assert(t[k] == cs@[from + k]);
                if k < i {
                } else if k > i {
                    assert(t[i] != '/');
                }
                assert(k == i);
            }
            return Some(j);
        }
        j = j + 1;
    }
    proof {
        if exists|i: int| 0 <= i < t.len() && t[i] == '/' {
            let i = choose|i: int| 0 <= i < t.len() && t[i] == '/';
            assert(cs@[from + i] == '/');
        }
    }
    None
}

/// One step of `split_slash`: with room for two or more pieces and a slash
/// at `i`, the first piece ends at `i`.
proof fn lemma_split_step(rest: Seq<char>, m: nat, i: int)
    requires
        m >= 2,
        first_slash(rest) == Some(i),
    ensures
        split_slash(rest, m) == seq![rest.take(i)] + split_slash(rest.skip(i + 1), (m - 1) as nat),
{
    reveal(split_slash);
}

/// The last step of `split_slash`: with room for one piece, or no slash
/// left, the rest is one piece.
proof fn lemma_split_last(rest: Seq<char>, m: nat)
    requires
        m >= 1,
        m == 1 || first_slash(rest) is None,
    ensures
        split_slash(rest, m) == seq![rest],
{
    reveal(split_slash);
}

/// Appending a piece to the pieces found so far.
proof fn lemma_pieces_push(before: Seq<Seq<char>>, piece: Seq<char>, tail: Seq<Seq<char>>)
    ensures
        before.push(piece) + tail == before + (seq![piece] + tail),
{
    assert(before.push(piece) + tail =~= before + (seq![piece] + tail));
}

/// Taking the piece up to the next slash keeps the pieces found so far
/// and the split of the rest together equal to the whole split.
proof fn lemma_advance(cs: Seq<char>, start: int, j: int, found: Seq<Seq<char>>, n: nat, path: Seq<char>)
    requires
        0 <= start <= j < cs.len(),
        first_slash(cs.skip(start)) == Some(j - start),
        found.len() + 2 <= n,
        found + split_slash(cs.skip(start), (n - found.len()) as nat) == split_slash(path, n),
    ensures
        found.push(cs.subrange(start, j)) + split_slash(cs.skip(j + 1), (n - found.len() - 1) as nat)
            == split_slash(path, n),
{
    let rest = cs.skip(start);
    let i = j - start;
    let m = (n - found.len()) as nat;
    lemma_split_step(rest, m, i);
    assert(rest.take(i) =~= cs.subrange(start, j));
    assert(rest.skip(i + 1) =~= cs.skip(j + 1));
    lemma_pieces_push(found, rest.take(i), split_slash(cs.skip(j + 1), (m - 1) as nat));
}

/// `path.splitn(n, "/")`, the pieces copied out.
pub fn split_path(path: &str, n: usize) -> (r: Vec<String>)
    requires
        n >= 1,
    ensures
        strings_view(r@) == split_slash(path@, n as nat),
{
    let cs = chars_of(path);
    let len = cs.len();
    let mut parts: Vec<String> = Vec::new();
    let mut start: usize = 0;
    proof {
        assert(cs@.skip(0) =~= path@);
        assert(strings_view(parts@) + split_slash(cs@.skip(0), n as nat) =~= split_slash(path@, n as nat));
    }
    loop
        invariant
            cs@ == path@,
            len == cs@.len(),
            start <= len,
            parts@.len() < n,
            strings_view(parts@) + split_slash(cs@.skip(start as int), (n - parts@.len()) as nat)
                == split_slash(path@, n as nat),
        ensures
            start <= len,
            parts@.len() < n,
            strings_view(parts@) + split_slash(cs@.skip(start as int), (n - parts@.len()) as nat)
                == split_slash(path@, n as nat),
            parts@.len() + 1 >= n || first_slash(cs@.skip(start as int)) is None,
        decreases len - start,
    {
        if parts.len() + 1 >= n {
            break;
        }
        match next_slash(&cs, start) {
            Some(j) => {
                let piece = path.substring_char(start, j).to_owned();
                let ghost before = parts@;
                let ghost rest = cs@.skip(start as int);
                let ghost m = (n - parts@.len()) as nat;
                parts.push(piece);
                proof {
                    lemma_advance(cs@, start as int, j as int, strings_view(before), n as nat, path@);
                    assert(strings_view(parts@) =~= strings_view(before).push(cs@.subrange(start as int, j as int)));
                }
                start = j + 1;
            }
            None => {
                break;
            }
        }
    }
    let ghost before = parts@;
    let ghost rest = cs@.skip(start as int);
    let last = path.substring_char(start, len).to_owned();
    parts.push(last);
    proof {
        assert(rest =~= path@.subrange(start as int, len as int));
        lemma_split_last(rest, (n - before.len()) as nat);
        assert(strings_view(parts@) =~= strings_view(before).push(rest));
        assert(strings_view(before).push(rest) =~= strings_view(before) + seq![rest]);
    }
    parts
}

/// The operation a request asks for: the path is split on `/` (into at
/// most four pieces for `GET`, three for `POST`) and the second piece names
/// the operation; keys and values are the pieces after it.
pub fn route(method: Method, path: &str) -> (r: Route)
    ensures
        r@ == route_spec(method, path@),
{
    match method {
        Method::Get => {
            let p = split_path(path, 4);
            let ghost sp = split_slash(path@, 4);
            assert(strings_view(p@) == sp);
            if p.len() < 2 {
                return Route::Malformed;
            }
            assert(p@[1]@ == sp[1]);
            if str_eq(p[1].as_str(), "query") {
                if p.len() < 3 {
                    Route::Malformed
                } else {
                    assert(p@[2]@ == sp[2]);
                    Route::Query(p[2].clone())
                }
            } else if str_eq(p[1].as_str(), "del") {
                if p.len() < 3 {
                    Route::Malformed
                } else {
                    assert(p@[2]@ == sp[2]);
                    Route::Del(p[2].clone())
                }
            } else if str_eq(p[1].as_str(), "zrmv") {
                if p.len() < 4 {
                    Route::Malformed
                } else {
                    assert(p@[2]@ == sp[2]);
                    assert(p@[3]@ == sp[3]);
                    Route::Zrmv(p[2].clone(), p[3].clone())
                }
            } else if str_eq(p[1].as_str(), "init") {
                Route::Init
            } else {
                Route::Ping
            }
        },
        Method::Post => {
            let p = split_path(path, 3);
            let ghost sp = split_slash(path@, 3);
            assert(strings_view(p@) == sp);
            if p.len() < 2 {
                return Route::Malformed;
            }
            assert(p@[1]@ == sp[1]);
            if str_eq(p[1].as_str(), "add") {
                Route::Add
            } else if str_eq(p[1].as_str(), "batch") {
                Route::Batch
            } else if str_eq(p[1].as_str(), "list") {
                Route::List
            } else if str_eq(p[1].as_str(), "zadd") {
                if p.len() < 3 {
                    Route::Malformed
                } else {
                    assert(p@[2]@ == sp[2]);
                    Route::Zadd(p[2].clone())
                }
            } else if str_eq(p[1].as_str(), "zrange") {
                if p.len() < 3 {
                    Route::Malformed
                } else {
                    assert(p@[2]@ == sp[2]);
                    Route::Zrange(p[2].clone())
                }
            } else if str_eq(p[1].as_str(), "updateCluster") {
                Route::UpdateCluster
            } else {
                Route::UnknownPost
            }
        },
        Method::Other => Route::UnknownMethod,
    }
}

} // verus!
