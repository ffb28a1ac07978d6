[package]
name = "optioncalendar"
version = "0.1.0"
edition = "2021"
publish = false

[dependencies]
chrono = "0.4"
serde = { version = "1", features = ["derive"] }
serde_json = "1"
toml = "0.8"
anyhow = "1"
thiserror = "2"
clap = { version = "4", features = ["derive"] }
crossterm = "0.28"
dirs = "6"

[dev-dependencies]
tempfile = "3"
