//! In-memory key-value and sorted-set cache with a verified core.
//!
//! The library holds the logic of the cache server: the key-value map and
//! the sorted sets, the rules that tie them together, the sharding of keys
//! over a cluster, the encoding of persisted sorted-set entries, the routing
//! of HTTP requests and the replies they get.

pub mod codec;
pub mod dto;
pub mod handler;
pub mod http_parser;
pub mod laws;
pub mod route;
pub mod server;
pub mod shard;
pub mod text;
pub mod cuckoo;
pub mod zset;
pub mod zset_table;
pub mod storage;
