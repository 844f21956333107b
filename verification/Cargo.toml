[package]
name = "pythia"
version = "0.1.0"
edition = "2021"
publish = false

[dependencies]
petgraph = "=0.6.5"
bimap = "=0.6.3"
rust-crypto = "=0.2.36"
chrono = "=0.4.45"
uuid = "=1.29.0"
serde_json = "1"
