[package]
name = "bump2version"
version = "0.1.0"
edition = "2021"
publish = false

[dependencies]
regex = "1"
clap = { version = "4", features = ["derive"] }
serde = { version = "1", features = ["derive"] }
serde_derive = "1"
toml = "*"
tracing = "0.1"
tracing-subscriber = { version = "0.3", features = ["env-filter"] }
