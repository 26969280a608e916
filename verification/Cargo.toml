[package]
name = "sol_gate"
version = "0.1.0"
edition = "2021"
publish = false

[dependencies]
axum = "0.6"
clap = { version = "4", features = ["derive"] }
futures = "0.3"
hex = "0.4"
lz4 = "1"
platform-dirs = "*"
rand = "0.8"
reqwest = { version = "0.11", default-features = false, features = ["rustls-tls", "stream"] }
serde = { version = "1", features = ["derive"] }
serde_json = "1"
sevenz-rust = "*"
sha2 = "0.10"
sqlx = { version = "0.7", default-features = false, features = ["sqlite", "runtime-tokio"] }
tokio = { version = "1", features = ["full"] }
toml = "0.8"
walkdir = "2"
