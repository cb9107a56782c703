[package]
name = "mini_egraph"
version = "0.1.0"
edition = "2021"
publish = false

[dependencies]
indexmap = "2"
rustc-hash = "2"
smallvec = "1"
symbol_table = { version = "*", features = ["global"] }
