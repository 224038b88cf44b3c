[package]
name = "sp_mvm_rpc"
version = "0.1.0"
edition = "2021"
publish = false

[dependencies]
parity-scale-codec = { version = "3", features = ["derive"] }
jsonrpc-core = "18"
jsonrpc-derive = "18"
serde = { version = "1", features = ["derive"] }
serde_json = "1"
sp-api = "*"
sp-blockchain = "*"
sp-runtime = "*"
