[package]
name = "hydroflow"
version = "0.1.0"
edition = "2021"
publish = false

[dependencies]
rustc-hash = "1.1"
smallvec = "1"
tokio = { version = "1", features = ["full"] }
tokio-stream = "0.1"
tokio-util = { version = "0.7", features = ["codec", "net"] }
futures = "0.3"
bytes = "1"
bincode = "1.3"
serde = { version = "1", features = ["derive"] }
serde_json = "1"

[dev-dependencies]
itertools = "0.10"
