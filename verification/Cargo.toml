[package]
name = "arb_util"
version = "0.1.0"
edition = "2021"
publish = false

[dependencies]
dotenvy = "*"
notify = "*"
reqwest = { version = "*", default-features = false, features = ["json", "rustls-tls"] }
serde = { version = "*", features = ["derive"] }
serde_json = "*"
serde_yaml = "*"
tokio = { version = "*", features = ["full"] }
