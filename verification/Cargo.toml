[package]
name = "slipstream"
version = "0.1.0"
edition = "2021"
publish = false

[dependencies]
serde = { version = "1", features = ["derive"] }
serde_json = "1"
syn = { version = "2", features = ["full", "visit", "extra-traits"] }
thiserror = "1"
clap = { version = "4", features = ["derive"] }
