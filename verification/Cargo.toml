[package]
name = "twine"
version = "0.1.0"
edition = "2021"
publish = false

[dependencies]
heck = "=0.3.3"
indenter = { version = "=0.3.4", features = ["std"] }
regex = "=1.13.1"
serde = { version = "=1.0.229", features = ["derive"] }
serde_json = "=1.0.154"
tracing = "=0.1.44"
tracing-subscriber = "=0.3.23"
