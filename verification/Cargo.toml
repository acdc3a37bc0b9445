[package]
name = "siip_node"
version = "0.1.0"
edition = "2021"
publish = false

[dependencies]
serde_json = "1"
sha3 = "0.10"
rand = "0.8"
parking_lot = "*"
