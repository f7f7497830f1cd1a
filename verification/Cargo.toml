[package]
name = "merkle_sum_tree"
version = "0.1.0"
edition = "2021"
publish = false

[dependencies]
sha2 = "=0.10.9"
tfhe = { version = "0.5", default-features = false, features = ["shortint", "x86_64-unix"] }
