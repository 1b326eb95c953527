[package]
name = "nftrout_indexer"
version = "0.1.0"
edition = "2021"
publish = false

[dependencies]
anyhow = "=1.0.104"
async-stream = "=0.3.6"
axum = "=0.7.9"
config = { version = "=0.14.1", default-features = false, features = ["toml", "json", "yaml", "ini"] }
ethers = { version = "=2.0.14", default-features = false }
futures = "=0.3.34"
parking_lot = "=0.12.5"
petgraph = "=0.6.5"
reqwest = { version = "=0.11.27", default-features = false, features = ["json", "stream"] }
rusqlite = { version = "=0.31.0", features = ["bundled"] }
serde = { version = "=1.0.229", features = ["derive"] }
smallvec = "=1.16.4"
thiserror = "=1.0.69"
tokio = { version = "=1.54.1", features = ["macros", "rt-multi-thread", "time", "net"] }
tower-http = { version = "=0.5.2", features = ["cors", "trace", "compression-br", "compression-gzip"] }
tracing = "=0.1.44"
tracing-subscriber = { version = "=0.3.23", features = ["env-filter", "json"] }
url = "=2.5.8"

[dev-dependencies]
rand = "=0.8.8"
