[package]
name = "tree_map"
version = "0.1.0"
edition = "2021"
publish = false

[dependencies]
borsh = "0.9"

[dev-dependencies]
quickcheck = { version = "1", default-features = false }
rand = "0.8"
