[package]
name = "cosense_core"
version = "0.1.0"
edition = "2021"
publish = false

[dependencies]
serde = { version = "=1.0.229", features = ["derive"] }
serde_json = "=1.0.154"
toml = "=0.8.23"
toml_edit = "=0.22.27"
unicode-width = "=0.2.3"
libc = "=0.2.191"
tempfile = "=3.27.0"
term-maths = "*"
