[package]
name = "code_tables"
version = "0.1.0"
edition = "2021"
publish = false

[dependencies]
clap = "=4.6.7"
mdbook = { version = "=0.4.52", default-features = false }
serde_json = "=1.0.151"
