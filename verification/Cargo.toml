[package]
name = "ethtrie"
version = "0.1.0"
edition = "2021"
publish = false

[dependencies]
ethereum-types = "0.9"
hashbrown = "0.14"
parking_lot = "0.12"
rlp = "0.4"
tiny-keccak = { version = "2.0", features = ["keccak"] }

[dev-dependencies]
hex = "0.4"
rand = "0.7"
