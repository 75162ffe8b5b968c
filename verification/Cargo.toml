[package]
name = "bindle_store"
version = "0.1.0"
edition = "2021"
publish = false

[dependencies]
sha2 = "*"
tokio = { version = "*", features = ["fs", "io-util", "sync"] }
async-trait = "*"
futures = "*"
