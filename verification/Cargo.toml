[package]
name = "tack"
version = "0.2.0"
edition = "2021"
publish = false

[dependencies]
anyhow = "=1.0.104"
blake3 = { version = "=1.8.7", features = ["pure"] }
clap = { version = "=4.6.7", features = ["derive"] }
fastcdc = "4"
serde = { version = "=1.0.229", features = ["derive"] }
serde_json = "=1.0.154"
similar = "=2.7.0"
thiserror = "=2.0.21"
tracing = "=0.1.44"
tracing-subscriber = { version = "=0.3.23", features = ["env-filter"] }
