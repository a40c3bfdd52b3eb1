[package]
name = "vaultseek"
version = "1.2.0"
edition = "2021"
publish = false

[dependencies]
serde = { version = "1", features = ["derive"] }
serde_json = "1"
bincode = "1"
uuid = { version = "1", features = ["v4"] }
rusqlite = { version = "0.31", features = ["bundled"] }
walkdir = "2"
zip = { version = "2", default-features = false, features = ["deflate"] }
calamine = "0.24"
parking_lot = "0.12"
rayon = "1"
notify = "6"
tokio = { version = "1", features = ["full"] }
reqwest = { version = "0.12", default-features = false, features = ["json", "stream"] }
reqwest-eventsource = "0.6"
futures-util = "0.3"
axum = "0.7"
pdf-extract = "0.7"
docx-rs = "0.4"

[dev-dependencies]
tempfile = "3"
