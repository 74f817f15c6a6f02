[package]
name = "cdpt"
version = "0.1.0"
edition = "2021"
publish = false

[dependencies]
crossbeam = "0.8"
fastrand = "2"
rustc-hash = "2"
syn = { version = "2", features = ["full"] }
quote = "1"
proc-macro2 = "1"
