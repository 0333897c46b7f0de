[package]
name = "idfm_realtime"
version = "0.1.0"
edition = "2021"
publish = false

[dependencies]
anyhow = "1"
chrono = "0.4"
chrono-tz = "*"
dashmap = "*"
futures-util = "0.3"
gtfs-realtime = "*"
gtfs-structures = { version = "=0.44.0", default-features = false }
prost = "*"
reqwest = { version = "0.12", default-features = false, features = ["json", "stream", "rustls-tls"] }
serde = { version = "1", features = ["derive"] }
serde_json = "1"
tokio = { version = "1", features = ["full"] }
warp = "0.3"
