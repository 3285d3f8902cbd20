[package]
name = "osu-difficulty-lab"
version = "0.1.0"
edition = "2021"
publish = false

[dependencies]
anyhow = "1"
arrow-array = "=60.1.0"
arrow-schema = "=60.1.0"
bincode = "=1.3.3"
clap = { version = "=4.6.7", features = ["derive"] }
hex = "=0.4.3"
hnsw = { version = "=0.11.0", features = ["serde1"] }
parquet = { version = "=60.1.0", default-features = false, features = ["arrow", "snap"] }
rand_pcg = { version = "=0.3.1", features = ["serde1"] }
reqwest = { version = "=0.12.28", default-features = false, features = ["blocking", "rustls-tls", "socks"] }
rusqlite = { version = "=0.41.1", features = ["bundled"] }
serde = { version = "1", features = ["derive"] }
serde_json = "=1.0.154"
sevenz-rust = "0.6"
sha2 = "=0.10.9"
space = { version = "=0.17.0", features = ["serde"] }
thiserror = "=2.0.21"
zip = { version = "=2.6.1", default-features = false, features = ["deflate"] }
