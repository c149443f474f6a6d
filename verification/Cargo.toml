[package]
name = "ratioup"
version = "0.1.0"
edition = "2021"
publish = false

[dependencies]
fastrand = "2"
toml-span = "*"
sha1_smol = "1"
tokio = { version = "1", features = ["fs", "sync", "rt", "macros"] }
tracing = "0.1"
reqwest = { version = "*", default-features = false }
fake-torrent-client = "*"

[dev-dependencies]
tempfile = "3"
