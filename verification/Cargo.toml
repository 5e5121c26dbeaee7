[package]
name = "tt_cli"
version = "0.1.0"
edition = "2021"
publish = false

[dependencies]
chrono = "0.4"
clap = "2"
config = { version = "*", default-features = false, features = ["toml"] }
serde = { version = "1", features = ["derive"] }
