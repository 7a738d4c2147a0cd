[package]
name = "minidb"
version = "0.1.0"
edition = "2021"
publish = false

[dependencies]
itertools = "*"
rustc_apfloat = "*"
clap = { version = "*", features = ["derive"] }
rand = "*"
