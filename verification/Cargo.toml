[package]
name = "mmr_verifier"
version = "0.1.0"
edition = "2021"
publish = false

[dependencies]
blake2b-rs = "*"
ckb-hash = "*"
ckb-jsonrpc-types = "*"
ckb-merkle-mountain-range = "*"
ckb-mock-tx-types = "*"
ckb-std = "*"
ckb-types = "*"
rand = "0.8"
serde_json = "1"
