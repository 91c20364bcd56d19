[package]
name = "hachi"
version = "0.1.0"
edition = "2021"
publish = false

[dependencies]
sha256 = { version = "=1.6.0", default-features = false }
base64 = "=0.22.1"
rand_chacha = "=0.9.0"
tfhe-ntt = "=0.7.1"
memmap2 = "=0.9.12"
rand = "=0.9.5"
