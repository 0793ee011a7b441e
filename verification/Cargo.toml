[package]
name = "hypervector"
version = "0.1.0"
edition = "2021"
publish = false

[dependencies]
bitvec = "1"
num-traits = "0.2"
parking_lot = "0.12"
rand = "0.10"
rustfft = "6"
