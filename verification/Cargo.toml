[package]
name = "numiproof"
version = "0.1.0"
edition = "2021"
publish = false

[dependencies]
sha3 = "0.10"
rand = "0.8"
serde = { version = "1", features = ["derive"] }
bincode = "1"
clap = { version = "4", features = ["derive"] }
hex = "0.4"
toml = "0.8"
