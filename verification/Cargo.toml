[package]
name = "pippin"
version = "0.1.0"
edition = "2021"
publish = false

[dependencies]
byteorder = "=1.5.0"
chrono = { version = "=0.4.45", default-features = false, features = ["clock", "std"] }
hashindexed = "=0.1.1"
rust-crypto = "=0.2.36"
