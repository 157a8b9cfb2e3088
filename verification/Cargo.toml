[package]
name = "sparse_merkle_store"
version = "0.1.0"
edition = "2021"
publish = false

[dependencies]
hash-db = "*"
memory-db = "*"
sha3 = "0.10"
hash256-std-hasher = "*"
