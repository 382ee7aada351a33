[package]
name = "literstream"
version = "0.1.0"
edition = "2021"
publish = false

[dependencies]
bytes = "1"
clap = { version = "4", features = ["derive"] }
futures = "0.3"
jiff = "0.2"
libc = "0.2"
lz4_flex = "0.11"
object_store = { version = "0.14", features = ["aws", "gcp"] }
rusqlite = { version = "0.35", features = ["bundled"] }
serde = { version = "1", features = ["derive"] }
serde_json = "1"
tokio = { version = "1", features = ["rt", "macros", "time", "signal"] }
