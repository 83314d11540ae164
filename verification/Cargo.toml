[package]
name = "rush"
version = "0.2.0"
edition = "2021"
publish = false

[dependencies]
anyhow = "*"
clap = "*"
indicatif = "*"
notify = "*"
serde = { version = "*", features = ["derive"] }
serde_yaml = "*"
sha2 = "*"
tokio = { version = "*", features = ["full"] }
