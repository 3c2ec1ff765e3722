[package]
name = "octree_stream"
version = "0.1.0"
edition = "2021"
publish = false

[dependencies]
bit-set = "*"
vec_map = "*"
serde = { version = "*", features = ["derive"] }
serde_json = "*"
crossbeam-channel = "*"
