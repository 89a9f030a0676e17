[package]
name = "token_id_poc"
version = "0.1.0"
edition = "2021"
publish = false

[dependencies]
exonum_rocksdb = "*"
