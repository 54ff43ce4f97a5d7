[package]
name = "fd_passing"
version = "0.1.0"
edition = "2021"
publish = false

[dependencies]
bytes = "1"
futures = "0.3"
libc = "0.2"
pin-project = "1"
rand = "0.8"
serde = { version = "1", features = ["derive"] }
thiserror = "2"
tokio = { version = "1", features = ["net", "rt", "io-util"] }
tokio-serde = "0.9"
tokio-util = { version = "0.7", features = ["codec"] }

[dev-dependencies]
serde_json = "1"
