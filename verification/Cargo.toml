[package]
name = "accumulators"
version = "0.1.0"
edition = "2021"
publish = false

[dependencies]
num-bigint-dig = { version = "=0.8.6", features = ["rand", "prime"] }
num-integer = "=0.1.47"
num-traits = "=0.2.19"
rand = "=0.8.8"
rand_chacha = "=0.3.1"
blake2 = "=0.10.6"
byteorder = "=1.5.0"
bitvec = "=1.1.1"
