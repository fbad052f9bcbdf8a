[package]
name = "poke"
version = "0.1.0"
edition = "2021"
publish = false

[dependencies]
fp2 = "0.6"
num-bigint = "0.4"
rug = { version = "1.30", default-features = false, features = ["integer", "rand"] }
sha3 = "0.10"
rand = "0.9"
