[package]
name = "bitcoins"
version = "0.1.0"
edition = "2021"
publish = false

[dependencies]
sha2 = "0.9"
ripemd160 = "0.9"
blake2 = "0.9"
digest = "0.9"
generic-array = "0.14"
