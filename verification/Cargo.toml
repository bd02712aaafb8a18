[package]
name = "hcache"
version = "0.1.0"
edition = "2021"
publish = false

[dependencies]
lockfree-cuckoohash = "0.1"
serde = { version = "1", features = ["derive"] }
serde_json = "1"
hyper = { version = "0.14", features = ["full"] }
tokio = { version = "1", features = ["full"] }
tarpc = { version = "0.29", features = ["full"] }
futures = "0.3"
rocksdb = { version = "0.18", default-features = false }
parking_lot = "0.12"
core_affinity = "0.5"
num_cpus = "1"
lazy_static = "1"
