[package]
name = "facet_core"
version = "0.1.0"
edition = "2021"
publish = false

[dependencies]
serde_json = "*"
crossbeam-channel = "*"
rayon = "*"
sled = "*"
arc-swap = "*"
