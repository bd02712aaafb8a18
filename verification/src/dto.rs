//! Plain values exchanged with clients and peers.

use vstd::prelude::*;

verus! {

/// A key and the value stored under it (the body of `POST /add`).
#[derive(Debug, Clone, PartialEq, Eq)]
pub struct InsrtRequest {
    pub key: String,
    pub value: String,
}

/// A member of a sorted set together with its score.
#[derive(Debug, Clone, PartialEq, Eq)]
pub struct ScoreValue {
    pub score: u32,
    pub value: String,
}

/// An inclusive range of scores (the body of `POST /zrange/{key}`).
#[derive(Debug, Clone, PartialEq, Eq)]
pub struct ScoreRange {
    pub min_score: u32,
    pub max_score: u32,
}

/// The cluster description: the peers' host names and this node's
/// one-based position among them.
#[derive(Debug, Clone, PartialEq, Eq)]
pub struct UpdateCluster {
    pub hosts: Vec<String>,
    pub index: u32,
}

impl View for InsrtRequest {
    type V = (Seq<char>, Seq<char>);

    open spec fn view(&self) -> (Seq<char>, Seq<char>) {
        (self.key@, self.value@)
    }
}

impl View for ScoreValue {
    type V = (u32, Seq<char>);

    open spec fn view(&self) -> (u32, Seq<char>) {
        (self.score, self.value@)
    }
}

impl InsrtRequest {
    pub fn new(key: String, value: String) -> (r: Self)
        ensures
            r@ == (key@, value@),
    {
        InsrtRequest { key, value }
    }
}

impl ScoreValue {
    pub fn new(score: u32, value: String) -> (r: Self)
        ensures
            r@ == (score, value@),
    {
        ScoreValue { score, value }
    }
}

impl ScoreRange {
    pub fn new(min_score: u32, max_score: u32) -> (r: Self)
        ensures
            r.min_score == min_score,
            r.max_score == max_score,
    {
        ScoreRange { min_score, max_score }
    }
}

} // verus!
