# hcache

An HTTP key-value and sorted-set cache that can spread its keys over a
cluster of nodes. The logic is a Verus library (`src/`), proved against
contracts; the server around it (`app/`) does the I/O.

## What the cache does

- `POST /add` stores a value under a key; a sorted set of that name goes.
- `GET /query/{key}` answers the value (200) or 404.
- `GET /del/{key}` removes the value and the sorted set of that name.
- `POST /batch` stores many pairs (400 when a peer failed to store its
  share); `POST /list` answers the pairs of the distinct keys that have a
  value, in request order, or 404 when none has.
- `POST /zadd/{key}` gives a member its score (400 when the key holds a
  plain value); `POST /zrange/{key}` answers the members whose score lies in
  the inclusive range, by ascending score (404 when there is no such set);
  `GET /zrmv/{key}/{value}` takes a member out (the set stays).
- `POST /updateCluster` saves the cluster description; `GET /init` takes it
  up, runs the bulk load once, and answers `ok` when start-up completed
  (400 when it failed).

Each key belongs to the node `hash(key) % nodes`; a node serves its own keys
and forwards the others to their node over RPC.

## Layout

- `src/storage.rs`: the store and its model (`StoreModel`); `src/zset.rs`,
  `src/zset_table.rs`: sorted sets; `src/cuckoo.rs`: the lock-free hash map
  the store keeps its values in.
- `src/server.rs`, `src/handler.rs`, `src/route.rs`: what each request does
  and answers; `src/shard.rs`: which node owns a key.
- `src/codec.rs`: the persisted row layout; `src/http_parser.rs`: the
  byte-level request reader.
- `src/laws.rs`: properties that span operations.
- `app/`: the server (hyper, tarpc, RocksDB).
