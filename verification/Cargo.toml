[package]
name = "dq_core"
version = "0.1.0"
edition = "2021"
publish = false

[dependencies]
camino = "=1.2.6"
comrak = { version = "=0.59.0", default-features = false }
csv = "=1.4.0"
dockerfile-parser-rs = "=3.4.0"
hcl-rs = "=0.20.0"
indexmap = "=2.14.2"
quick-xml = "=0.41.0"
regex = "=1.13.1"
rust-ini = "=0.21.3"
saphyr-parser = "=0.0.6"
serde = { version = "=1.0.229", features = ["derive"] }
serde_json = { version = "=1.0.154", features = ["preserve_order", "arbitrary_precision"] }
serde_norway = "=0.9.42"
tempfile = "=3.27.0"
thiserror = "=2.0.21"
toml = "=0.8.23"
toml_edit = "=0.22.27"
tracing = "=0.1.44"
