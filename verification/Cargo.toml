[package]
name = "spu"
version = "0.1.0"
edition = "2021"
publish = false

[dependencies]
bincode = "1.3"
serde = { version = "1", features = ["derive"] }
toml = "0.5"
clap = { version = "4", features = ["derive"] }
fs2 = "0.4"
glob = "0.3"
quest = "*"
