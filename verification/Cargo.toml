[package]
name = "nft_ledger"
version = "0.1.0"
edition = "2021"
publish = false

[dependencies]
hex = "0.4"
crc32fast = "1"
