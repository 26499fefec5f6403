[package]
name = "znodes"
version = "0.1.0"
edition = "2021"
publish = false

[dependencies]
async-trait = "*"
clap = { version = "*", features = ["derive"] }
dns-lookup = "*"
futures-util = "*"
jsonrpsee = { version = "=0.16.3", features = ["server"] }
parking_lot = "*"
pea2pea = "*"
rand = "=0.8.8"
serde = { version = "*", features = ["derive"] }
spectre = "*"
tokio = { version = "*", features = ["full"] }
tokio-util = { version = "*", features = ["codec"] }
tower = "=0.4.13"
tower-http = { version = "=0.4.4", features = ["cors"] }
tracing = "*"
tracing-subscriber = { version = "*", features = ["env-filter"] }
