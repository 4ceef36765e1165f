[package]
name = "cibos"
version = "0.1.0"
edition = "2021"
publish = false

[dependencies]
sha2 = "0.10"
proc-macro2 = "1"
quote = "1"
syn = { version = "2", features = ["full"] }
