[package]
name = "cw1155_ledger"
version = "0.1.0"
edition = "2021"
publish = false

[dependencies]
cosmwasm-std = "=1.5.11"
cw1155 = "=0.16.0"
cw2 = "=0.16.0"
cw721 = "=0.16.0"
cw-utils = "=0.16.0"
serde = "=1.0.229"
