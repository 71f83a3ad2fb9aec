[package]
name = "autohost"
version = "0.1.0"
edition = "2021"
publish = false

[dependencies]
async-trait = "0.1"
hostname = { version = "0.3", features = ["set"] }
log = "0.4"
serde = { version = "1", features = ["derive"] }
tokio = { version = "1", features = ["fs", "io-util", "macros", "rt", "sync"] }
