[package]
name = "kndo_core"
version = "0.1.0"
edition = "2021"
publish = false

[dependencies]
blake3 = { version = "1", features = ["pure"] }
globset = "0.4"
glob = "0.3"
rustc-hash = "2"
serde = { version = "1", features = ["derive"] }
serde_json = "1"
num_cpus = "1"
rayon = "1"
smol_str = "0.3"
