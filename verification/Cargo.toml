[package]
name = "rust_chain"
version = "0.1.0"
edition = "2021"
publish = false

[dependencies]
sha2 = "=0.11.0"
ripemd = "=0.2.0"
bs58 = "=0.5.1"
p256 = { version = "=0.13.2", features = ["ecdsa"] }
rand_core = { version = "=0.6.4", features = ["getrandom"] }
sled = "=0.34.7"
clap = { version = "=4.6.7", features = ["derive"] }
hex = "=0.4.3"
