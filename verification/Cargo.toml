[package]
name = "nix_build_graph"
version = "0.1.0"
edition = "2021"
publish = false

[dependencies]
anyhow = "=1.0.104"
async-fn-stream = "=0.2.2"
clap = { version = "=4.6.7", features = ["derive"] }
futures = "=0.3.34"
fxhash = "=0.2.1"
indicatif = "=0.18.6"
reqwest = { version = "=0.12.28", default-features = false, features = ["rustls-tls"] }
serde = { version = "=1.0.229", features = ["derive"] }
serde_json = "=1.0.154"
tokio = { version = "=1.54.1", features = ["full"] }
tracing = "=0.1.44"
tracing-indicatif = "=0.3.14"
tracing-subscriber = "=0.3.23"
