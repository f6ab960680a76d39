[package]
name = "nxalyzer"
version = "0.1.0"
edition = "2021"
publish = false

[dependencies]
anyhow = "1"
clap = { version = "4", features = ["derive"] }
git2 = { version = "*", default-features = false }
serde = { version = "1", features = ["derive"] }
serde_json = "1"
