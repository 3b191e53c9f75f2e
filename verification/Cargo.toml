[package]
name = "rsplug"
version = "0.1.0"
edition = "2021"
publish = false

[dependencies]
clap = { version = "=4.6.7", features = ["derive", "env"] }
console = "=0.16.6"
hashbrown = "=0.17.1"
indicatif = "=0.18.6"
libc = "=0.2.191"
once_cell = "1"
reqwest = { version = "0.12", default-features = false, features = ["rustls-tls", "json"] }
serde = { version = "=1.0.229", features = ["derive"] }
serde_json = "=1.0.154"
serde_with = "3"
tempfile = "=3.27.0"
thiserror = "=2.0.21"
tokio = { version = "=1.54.1", features = ["rt-multi-thread", "macros", "sync", "time", "fs", "io-util", "process"] }
toml = "=1.1.8"
toml_edit = "*"
unicode-width = "=0.2.3"
xxhash-rust = { version = "=0.8.19", features = ["xxh3"] }
