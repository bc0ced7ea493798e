[package]
name = "tokfold_core"
version = "0.1.0"
edition = "2021"
publish = false

[dependencies]
anyhow = "=1.0.104"
clap = { version = "=4.6.7", features = ["derive"] }
rustc-hash = "=2.0.0"
sha2 = "=0.10.9"
tiktoken-rs = "=0.7.0"
