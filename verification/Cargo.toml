[package]
name = "consistent_hash"
version = "0.1.0"
edition = "2021"
publish = false

[dependencies]
crc32fast = "1"
async-trait = "0.1"
pingora = { version = "*", default-features = false, features = ["lb"] }
