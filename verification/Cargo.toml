[package]
name = "suho"
version = "0.1.1"
edition = "2021"
publish = false

[dependencies]
anyhow = "1"
axum = { version = "0.8", default-features = false, features = ["http1", "tokio"] }
bollard = "*"
clap = { version = "4", features = ["derive"] }
etherparse = "0.16"
futures-util = "0.3"
ipnetwork = "*"
nix = { version = "*", features = ["socket", "uio"] }
prometheus-client = "*"
rustables = "*"
schemars = "1"
serde = { version = "1", features = ["derive"] }
serde_json = "1"
serde_yaml_ng = "*"
tokio = { version = "1", features = ["macros", "net", "rt-multi-thread", "signal", "sync", "time"] }
tracing = "0.1"
tracing-subscriber = { version = "0.3", features = ["env-filter"] }
