[package]
name = "fkst_framework"
version = "0.1.0"
edition = "2021"
publish = false

[dependencies]
anyhow = "1"
base64 = "0.22"
mlua = { version = "0.10", features = ["lua54", "vendored", "serialize"] }
nix = { version = "0.29", features = ["fs", "process", "signal"] }
notify = "7"
redb = "2"
serde = { version = "1", features = ["derive"] }
serde_json = "1"
tokio = { version = "1", features = ["fs", "io-util", "macros", "net", "process", "rt-multi-thread", "signal", "sync", "time"] }
tracing = "0.1"
ulid = "1"

[dev-dependencies]
tempfile = "3"
