[package]
name = "soul_msg"
version = "0.1.0"
edition = "2021"
publish = false

[dependencies]
blake3 = { version = "1", features = ["pure"] }
proc-macro2 = "1"
quote = "1"
syn = { version = "2", features = ["full"] }
