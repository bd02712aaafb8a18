//! A byte-level HTTP request reader for the single-threaded runtime: a
//! state machine that is fed the bytes read from a connection and says
//! when the connection is to be answered.

use vstd::prelude::*;

verus! {

/// Status line of a 200 reply, with the blank line that ends the headers.
pub const HTTP_200: &'static str = "HTTP/1.1 200 OK\r\n\r\n";

/// Status line of a 400 reply, with the blank line that ends the headers.
pub const HTTP_400: &'static str = "HTTP/1.1 400 Bad Request\r\n\r\n";

/// Status line of a 404 reply, with the blank line that ends the headers.
pub const HTTP_404: &'static str = "HTTP/1.1 404 Not Found\r\n\r\n";

/// The body sent after `HTTP_200` when the reader answers.
pub const REPLY_OK_BODY: &'static str = "ok";

/// The method of the request being read.
#[derive(Debug, Clone, Copy, PartialEq, Eq, Structural)]
pub enum HttpMethod {
    Unknown,
    Get,
    Post,
}

/// Where the reader stands in the request.
#[derive(Debug, Clone, Copy, PartialEq, Eq, Structural)]
pub enum HttpRequestParserState {
    /// At the first byte of the method.
    ParseMethod,
    /// Skipping the rest of the method and the `/` before the path; the
    /// count is how many bytes are still to be skipped.
    SkipBeforePath(usize),
    /// At the first byte of the path's first component.
    ParsePath,
    QueryGetKey(usize),
    DelGetKey(usize),
    ZrmvGetKeyValue(usize),
    ReplyInit,
    AddGetBody(usize),
    ListGetBody(usize),
    BatchGetBody(usize),
    /// A `POST` path that starts with neither `l`, `b` nor `a`: its second
    /// byte tells `zadd` from the rest.
    AddOrRange,
    ZaddGetKeyAndBody(usize),
    ZrangeGetBody(usize),
    /// A request was answered: the rest of its headers is skipped; the
    /// count is how many bytes of the closing `\r\n\r\n` were just seen.
    SkipHeaderNoBody(usize),
    ParseBody,
}

/// The reader of one connection.
pub struct ParserContext {
    pub body: Vec<u8>,
    pub state: HttpRequestParserState,
    pub method: HttpMethod,
    pub cur_path_component: Vec<u8>,
    pub path: Vec<String>,
}

/// One move of the reader on `buf` at `pos` (which is inside `buf`): the
/// state, the method and the position after it, and whether the
/// connection is to be answered `200 ok` now.
pub open spec fn step_spec(
    state: HttpRequestParserState,
    method: HttpMethod,
    buf: Seq<u8>,
    pos: int,
) -> (HttpRequestParserState, HttpMethod, int, bool) {
    match state {
        HttpRequestParserState::ParseMethod => {
            if buf[pos] == 0x50u8 {
                (HttpRequestParserState::SkipBeforePath(5), HttpMethod::Post, pos + 1, false)
            } else {
                (HttpRequestParserState::SkipBeforePath(4), HttpMethod::Get, pos + 1, false)
            }
        },
        HttpRequestParserState::SkipBeforePath(skip) => {
            let remain = buf.len() - pos;
            if skip <= remain {
                (HttpRequestParserState::ParsePath, method, pos + skip, false)
            } else {
                (
                    HttpRequestParserState::SkipBeforePath((skip - remain) as usize),
                    method,
                    buf.len() as int,
                    false,
                )
            }
        },
        HttpRequestParserState::ParsePath => {
            let next = match method {
                HttpMethod::Post => {
                    if buf[pos] == 0x6cu8 {
                        HttpRequestParserState::ListGetBody(0)
                    } else if buf[pos] == 0x62u8 {
                        HttpRequestParserState::BatchGetBody(0)
                    } else if buf[pos] == 0x61u8 {
                        HttpRequestParserState::AddGetBody(0)
                    } else {
                        HttpRequestParserState::AddOrRange
                    }
                },
                _ => {
                    if buf[pos] == 0x64u8 {
                        HttpRequestParserState::DelGetKey(3)
                    } else if buf[pos] == 0x7au8 {
                        HttpRequestParserState::ZrmvGetKeyValue(4)
                    } else {
                        HttpRequestParserState::ReplyInit
                    }
                },
            };
            (next, method, pos + 1, false)
        },
        HttpRequestParserState::AddOrRange => {
            if buf[pos] == 0x61u8 {
                (HttpRequestParserState::AddGetBody(0), method, pos + 1, false)
            } else {
                (HttpRequestParserState::ZaddGetKeyAndBody(4), method, pos + 1, false)
            }
        },
        HttpRequestParserState::SkipHeaderNoBody(k) => {
            let next = if buf[pos] == header_end_byte(k) {
                if k >= 3 {
                    HttpRequestParserState::ParseMethod
                } else {
                    HttpRequestParserState::SkipHeaderNoBody((k + 1) as usize)
                }
            } else if buf[pos] == 0x0du8 {
                HttpRequestParserState::SkipHeaderNoBody(1)
            } else {
                HttpRequestParserState::SkipHeaderNoBody(0)
            };
            (next, method, pos + 1, false)
        },
        _ => (HttpRequestParserState::SkipHeaderNoBody(0), method, pos, true),
    }
}

/// The byte at position `k` of the blank line that ends the headers,
/// `\r\n\r\n`.
pub open spec fn header_end_byte(k: usize) -> u8 {
    if k % 2 == 0 {
        0x0du8
    } else {
        0x0au8
    }
}

/// Whether the headers' closing `\r\n\r\n` ends at byte `i` of `buf`.
pub open spec fn ends_headers(buf: Seq<u8>, i: int) -> bool {
    &&& 3 <= i < buf.len()
    &&& buf[i - 3] == 0x0du8
    &&& buf[i - 2] == 0x0au8
    &&& buf[i - 1] == 0x0du8
    &&& buf[i] == 0x0au8
}

/// A measure that every move that does not answer brings down.
pub open spec fn progress(state: HttpRequestParserState, len: int, pos: int) -> int {
    2 * (len - pos) + if state is SkipBeforePath {
        1int
    } else {
        0int
    }
}

/// The moves that do not answer bring `progress` down, and stay in `buf`.
pub proof fn lemma_step_progress(
    state: HttpRequestParserState,
    method: HttpMethod,
    buf: Seq<u8>,
    pos: int,
)
    requires
        0 <= pos < buf.len(),
    ensures
        ({
            let (s, m, p, answer) = step_spec(state, method, buf, pos);
            &&& pos <= p <= buf.len()
            &&& !answer ==> 0 <= progress(s, buf.len() as int, p) < progress(state, buf.len() as int, pos)
        }),
{
}

/// Moves of the reader from `pos` on until it asks to answer or the bytes
/// run out: the state, the method and the position then, and whether to
/// answer.
pub open spec fn feed_spec(
    state: HttpRequestParserState,
    method: HttpMethod,
    buf: Seq<u8>,
    pos: int,
) -> (HttpRequestParserState, HttpMethod, int, bool)
    decreases progress(state, buf.len() as int, pos),
    when 0 <= pos <= buf.len()
{
    if pos >= buf.len() {
        (state, method, pos, false)
    } else {
        let (s, m, p, answer) = step_spec(state, method, buf, pos);
        proof {
            lemma_step_progress(state, method, buf, pos);
        }
        if answer {
            (s, m, p, true)
        } else {
            feed_spec(s, m, buf, p)
        }
    }
}

/// While skipping headers with the last `k` bytes before `pos` matching the
/// start of `\r\n\r\n`, the reader answers nothing and reads to the end of
/// `buf` as long as no header end lies before its last byte.
proof fn lemma_skip_headers(m: HttpMethod, buf: Seq<u8>, pos: int, k: usize)
    requires
        0 <= pos <= buf.len(),
        k <= 3,
        k <= pos,
        k >= 1 ==> buf[pos - k] == 0x0du8,
        k >= 2 ==> buf[pos - k + 1] == 0x0au8,
        k >= 3 ==> buf[pos - k + 2] == 0x0du8,
        forall|i: int| pos <= i < buf.len() - 1 ==> !ends_headers(buf, i),
    ensures
        !feed_spec(HttpRequestParserState::SkipHeaderNoBody(k), m, buf, pos).3,
        feed_spec(HttpRequestParserState::SkipHeaderNoBody(k), m, buf, pos).2 == buf.len(),
    decreases buf.len() - pos,
{
    if pos < buf.len() {
        let st = HttpRequestParserState::SkipHeaderNoBody(k);
        let (s, mm, p, answer) = step_spec(st, m, buf, pos);
        lemma_step_progress(st, m, buf, pos);
        assert(feed_spec(st, m, buf, pos) == feed_spec(s, mm, buf, p));
        assert(p == pos + 1 && mm == m && !answer);
        if buf[pos] == header_end_byte(k) {
            if k >= 3 {
                assert(ends_headers(buf, pos));
                assert(pos + 1 == buf.len());
            } else {
                lemma_skip_headers(m, buf, pos + 1, (k + 1) as usize);
            }
        } else if buf[pos] == 0x0du8 {
            lemma_skip_headers(m, buf, pos + 1, 1);
        } else {
            lemma_skip_headers(m, buf, pos + 1, 0);
        }
    }
}

/// A request is answered once: after an answer (which leaves the reader
/// skipping headers), feeding on through the rest of a buffer that holds
/// no further header end before its last byte answers nothing and reads
/// it all.
pub proof fn lemma_answered_once(m: HttpMethod, buf: Seq<u8>, pos: int)
    requires
        0 <= pos <= buf.len(),
        forall|i: int| pos <= i < buf.len() - 1 ==> !ends_headers(buf, i),
    ensures
        !feed_spec(HttpRequestParserState::SkipHeaderNoBody(0), m, buf, pos).3,
        feed_spec(HttpRequestParserState::SkipHeaderNoBody(0), m, buf, pos).2 == buf.len(),
{
    lemma_skip_headers(m, buf, pos, 0);
}

impl ParserContext {
    /// A reader at the start of a request.
    pub fn new() -> (r: Self)
        ensures
            r.body@ == Seq::<u8>::empty(),
            r.state == HttpRequestParserState::ParseMethod,
            r.method == HttpMethod::Unknown,
            r.cur_path_component@ == Seq::<u8>::empty(),
            r.path@ == Seq::<String>::empty(),
    {
        ParserContext {
            body: Vec::new(),
            state: HttpRequestParserState::ParseMethod,
            method: HttpMethod::Unknown,
            path: Vec::new(),
            cur_path_component: Vec::new(),
        }
    }

    /// One move of the reader at `pos` in `buf` (see `step_spec`): returns
    /// the new position and whether to answer now.
    pub fn step(&mut self, buf: &[u8], pos: usize) -> (r: (usize, bool))
        requires
            pos < buf@.len(),
        ensures
            ({
                let (s, m, p, answer) = step_spec(old(self).state, old(self).method, buf@, pos as int);
                &&& final(self).state == s
                &&& final(self).method == m
                &&& r.0 == p
                &&& r.1 == answer
            }),
            final(self).body == old(self).body,
            final(self).cur_path_component == old(self).cur_path_component,
            final(self).path == old(self).path,
            r.0 <= buf@.len(),
            !r.1 ==> progress(final(self).state, buf@.len() as int, r.0 as int) < progress(
                old(self).state,
                buf@.len() as int,
                pos as int,
            ),
    {
        match self.state {
            HttpRequestParserState::ParseMethod => {
                if buf[pos] == 0x50u8 {
                    self.method = HttpMethod::Post;
                    self.state = HttpRequestParserState::SkipBeforePath(5);
                } else {
                    self.method = HttpMethod::Get;
                    self.state = HttpRequestParserState::SkipBeforePath(4);
                }
                (pos + 1, false)
            },
            HttpRequestParserState::SkipBeforePath(skip) => {
                let remain = buf.len() - pos;
                if skip <= remain {
                    self.state = HttpRequestParserState::ParsePath;
                    (pos + skip, false)
                } else {
                    self.state = HttpRequestParserState::SkipBeforePath(skip - remain);
                    (buf.len(), false)
                }
            },
            HttpRequestParserState::ParsePath => {
                let b = buf[pos];
                match self.method {
                    HttpMethod::Post => {
                        if b == 0x6cu8 {
                            self.state = HttpRequestParserState::ListGetBody(0);
                        } else if b == 0x62u8 {
                            self.state = HttpRequestParserState::BatchGetBody(0);
                        } else if b == 0x61u8 {
                            self.state = HttpRequestParserState::AddGetBody(0);
                        } else {
                            self.state = HttpRequestParserState::AddOrRange;
                        }
                    },
                    _ => {
                        if b == 0x64u8 {
                            self.state = HttpRequestParserState::DelGetKey(3);
                        } else if b == 0x7au8 {
                            self.state = HttpRequestParserState::ZrmvGetKeyValue(4);
                        } else {
                            self.state = HttpRequestParserState::ReplyInit;
                        }
                    },
                }
                (pos + 1, false)
            },
            HttpRequestParserState::AddOrRange => {
                if buf[pos] == 0x61u8 {
                    self.state = HttpRequestParserState::AddGetBody(0);
                } else {
                    self.state = HttpRequestParserState::ZaddGetKeyAndBody(4);
                }
                (pos + 1, false)
            },
            HttpRequestParserState::SkipHeaderNoBody(k) => {
                let b = buf[pos];
                let want: u8 = if k % 2 == 0 {
                    0x0du8
                } else {
                    0x0au8
                };
                if b == want {
                    if k >= 3 {
                        self.state = HttpRequestParserState::ParseMethod;
                    } else {
                        self.state = HttpRequestParserState::SkipHeaderNoBody(k + 1);
                    }
                } else if b == 0x0du8 {
                    self.state = HttpRequestParserState::SkipHeaderNoBody(1);
                } else {
                    self.state = HttpRequestParserState::SkipHeaderNoBody(0);
                }
                (pos + 1, false)
            },
            _ => {
                self.state = HttpRequestParserState::SkipHeaderNoBody(0);
                (pos, true)
            },
        }
    }

    /// Feeds `buf` from `pos` on until the reader asks to answer or the
    /// bytes run out. Returns the position reached and whether the
    /// connection is to be answered (`HTTP_200`, then `ok`) before feeding
    /// on from that position. After an answer the reader skips the rest of
    /// the request's headers and answers nothing before the blank line
    /// that ends them (see `lemma_answered_once`).
    pub fn feed(&mut self, buf: &[u8], pos: usize) -> (r: (usize, bool))
        requires
            pos <= buf@.len(),
        ensures
            ({
                let (s, m, p, answer) = feed_spec(old(self).state, old(self).method, buf@, pos as int);
                &&& final(self).state == s
                &&& final(self).method == m
                &&& r.0 == p
                &&& r.1 == answer
            }),
            r.0 <= buf@.len(),
            !r.1 ==> r.0 == buf@.len(),
            r.1 ==> final(self).state == HttpRequestParserState::SkipHeaderNoBody(0),
            final(self).body == old(self).body,
            final(self).cur_path_component == old(self).cur_path_component,
            final(self).path == old(self).path,
    {
        let mut p = pos;
        while p < buf.len()
            invariant
                p <= buf@.len(),
                self.body == old(self).body,
                self.cur_path_component == old(self).cur_path_component,
                self.path == old(self).path,
                feed_spec(self.state, self.method, buf@, p as int) == feed_spec(
                    old(self).state,
                    old(self).method,
                    buf@,
                    pos as int,
                ),
            decreases progress(self.state, buf@.len() as int, p as int),
        {
            let (next, answer) = self.step(buf, p);
            if answer {
                return (next, true);
            }
            p = next;
        }
        (p, false)
    }
}

} // verus!
