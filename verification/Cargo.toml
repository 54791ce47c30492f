[package]
name = "ironbase_core"
version = "0.1.0"
edition = "2021"
publish = false

[dependencies]
regex = "1"
serde = { version = "1", features = ["derive"] }
serde_json = "1"
strsim = "0.11"
lru = "0.12"
lazy_static = "1"
rayon = "1"
tracing = "0.1"
