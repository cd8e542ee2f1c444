[package]
name = "yek"
version = "0.1.0"
edition = "2021"
publish = false

[dependencies]
anyhow = "1"
byte-unit = "4"
clap = "4"
ignore = "0.4"
regex = "1"
serde = { version = "1", features = ["derive"] }
sha2 = "0.10"
toml = "0.8"
tracing = "0.1"
tracing-subscriber = "0.3"
walkdir = "2"
