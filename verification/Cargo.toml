[package]
name = "zpaq_rs"
version = "0.1.0"
edition = "2021"
publish = false

[dependencies]
clap = { version = "4", features = ["derive"] }
crossbeam-channel = "0.5"
indicatif = "0.17"
rayon = "1"
