[package]
name = "extraction_gym"
version = "0.1.0"
edition = "2021"
publish = false

[dependencies]
anyhow = "=1.0.104"
egraph-serialize = "=0.3.0"
env_logger = { version = "=0.10.2", default-features = false }
indexmap = "=2.14.2"
log = "=0.4.34"
ordered-float = "=5.5.0"
pico-args = { version = "=0.5.0", features = ["eq-separator"] }
