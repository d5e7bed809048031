[package]
name = "mathjax_escape"
version = "0.1.0"
edition = "2021"
publish = false

[dependencies]
clap = "=2.34.0"
mdbook = { version = "=0.4.52", default-features = false }
semver = "=1.0.28"
serde_json = "=1.0.151"
