[package]
name = "rhizome_trees"
version = "0.1.0"
edition = "2021"
publish = false

[dependencies]
blake3 = "*"
hex = "*"
lru = "*"
graphviz-rust = "*"
uuid = { version = "*", features = ["v4"] }
