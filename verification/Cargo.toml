[package]
name = "hledger_x"
version = "0.1.0"
edition = "2021"
publish = false

[dependencies]
chrono = { version = "0.4", default-features = false, features = ["clock", "std"] }
clap = { version = "4", features = ["derive"] }
color-eyre = { version = "0.6", default-features = false }
crossterm = "0.28"
glob = "0.3"
regex = "1"
rust_decimal = "1"
serde = { version = "1", features = ["derive"] }
similar = "2"
toml = "0.8"

[dev-dependencies]
tempfile = "3"
