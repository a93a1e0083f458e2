[package]
name = "etch341"
version = "0.1.0"
edition = "2021"
publish = false

[dependencies]
rusb = { version = "0.9", features = ["vendored"] }
sha2 = "0.10"
clap = { version = "4", features = ["derive"] }
indicatif = "0.17"
serde = { version = "1", features = ["derive"] }
toml = "0.8"
thiserror = "2"
