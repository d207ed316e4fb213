[package]
name = "ace"
version = "0.1.0"
edition = "2021"
publish = false

[dependencies]
rand = "0.8"
clap = { version = "4", features = ["derive"] }
parse-size = "1"
crossbeam-channel = "0.5"
colored = "2"
thiserror = "1"
