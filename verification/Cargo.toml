[package]
name = "mehsh_check"
version = "0.1.0"
edition = "2021"
publish = false

[dependencies]
tokio = { version = "*", features = ["full"] }
chrono = "*"
serde = { version = "*", features = ["derive"] }
toml = "*"
anyhow = "*"
clap = { version = "*", features = ["derive"] }
hostname = "*"
futures = "*"
reqwest = { version = "*", default-features = false }
