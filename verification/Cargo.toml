[package]
name = "mem_attest"
version = "0.1.0"
edition = "2021"
publish = false

[dependencies]
axum = "0.7"
blake3 = { version = "1", features = ["pure"] }
chrono = "0.4"
flate2 = "1"
hex = "0.4"
reqwest = { version = "0.12", default-features = false, features = ["json"] }
rs_merkle = "1"
serde = { version = "1", features = ["derive"] }
tokio = { version = "1", features = ["full"] }
