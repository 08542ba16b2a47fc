[package]
name = "redb_cli"
version = "0.1.0"
edition = "2021"
publish = false

[dependencies]
redb = "*"
serde_json = { version = "1", features = ["arbitrary_precision"] }
eyre = "0.6"
clap = { version = "4", features = ["derive"] }
thiserror = "1"

[dev-dependencies]
serde = "1"
redb-derive = "*"
