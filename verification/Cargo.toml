[package]
name = "txqueue"
version = "0.1.0"
edition = "2021"
publish = false

[dependencies]
linked-hash-map = "*"
rlp = "*"
serde = "1"
serde_json = "1"
