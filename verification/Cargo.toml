[package]
name = "utxo_runtime"
version = "0.1.0"
edition = "2021"
publish = false

[dependencies]
parity-scale-codec = "*"
sp-core = "*"
sp-io = "*"
sp-runtime = "*"
serde = { version = "1", features = ["derive"] }
