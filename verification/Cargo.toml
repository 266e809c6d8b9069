[package]
name = "federated_dfg"
version = "0.1.0"
edition = "2021"
publish = false

[dependencies]
tfhe = { version = "=0.8.7", default-features = false, features = ["boolean", "shortint", "integer"] }
rand = "=0.10.3"
