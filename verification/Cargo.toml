[package]
name = "dedup"
version = "0.1.0"
edition = "2021"
publish = false

[dependencies]
sha2 = "*"
multimap = "*"
clap = { version = "*", features = ["derive"] }
walkdir = "*"
anyhow = "*"
number_prefix = "*"
