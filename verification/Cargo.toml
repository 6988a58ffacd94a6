[package]
name = "fx"
version = "0.1.0"
edition = "2021"
publish = false

[dependencies]
anyhow = "=1.0.104"
blake3 = { version = "=1.8.7", features = ["pure"] }
bytesize = "=2.7.0"
clap = { version = "=4.6.7", features = ["derive"] }
comfy-table = { version = "=7.2.2", default-features = false }
dashmap = "=6.2.1"
rayon = "=1.12.0"
sha2 = "=0.10.9"
tracing = "=0.1.44"
tracing-subscriber = { version = "=0.3.23", features = ["env-filter"] }
twox-hash = "=2.1.5"
