[package]
name = "supertable"
version = "0.1.0"
edition = "2021"
publish = false

[dependencies]
apache-avro = "=0.22.0"
arrow = { version = "=59.3.2", default-features = false, features = ["ipc"] }
async-trait = "=0.1.92"
base64 = "=0.22.1"
blake3 = "=1.8.7"
bytes = "=1.12.1"
chrono = { version = "=0.4.45", default-features = false, features = ["clock", "std"] }
dashmap = "=6.2.1"
ferroid = { version = "=2.0.0", features = ["alloc", "basic", "snowflake", "std"] }
futures = "=0.3.34"
memmap2 = "=0.9.12"
memory-stats = "=1.2.0"
num_cpus = "=1.17.0"
object_store = { version = "=0.14.2", default-features = false }
rand = "=0.10.3"
rayon = "=1.12.0"
roaring = "=0.12.0"
serde = { version = "=1.0.229", features = ["derive"] }
serde_json = "=1.0.154"
tokio = { version = "=1.54.1", features = ["full"] }
tracing = "=0.1.44"
uuid = { version = "=1.29.0", features = ["v4"] }
wide = "=1.7.1"
xxhash-rust = { version = "=0.8.19", features = ["xxh3"] }
zstd = "=0.13.4"
