[package]
name = "dflibanalyzer"
version = "0.1.0"
edition = "2021"
publish = false

[dependencies]
rust-ini = "0.21"
serde = { version = "1", features = ["derive"] }
serde_json = "1"
clap = { version = "4", features = ["derive", "cargo"] }
colored = "3"
