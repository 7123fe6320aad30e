[package]
name = "laplace"
version = "0.1.0"
edition = "2021"
publish = false

[dependencies]
unicode-normalization = "0.1"
globset = "0.4"
serde_norway = "0.9"
serde = { version = "1", features = ["derive"] }
serde_json = "1"
anyhow = "1"
clap = { version = "4", features = ["derive"] }
ignore = "0.4"
tiny_http = "0.12"

[dev-dependencies]
tempfile = "3"
