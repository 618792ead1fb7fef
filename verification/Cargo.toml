[package]
name = "worldgraph"
version = "0.1.0"
edition = "2021"
publish = false

[dependencies]
bimap = "0.6"
linked_hash_set = "0.1"
petgraph = "0.6"
rand = "0.8"
thiserror = "1.0"
