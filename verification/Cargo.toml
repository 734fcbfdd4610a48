[package]
name = "lsn"
version = "0.1.0"
edition = "2021"
publish = false

[dependencies]
indexmap = "*"
chrono = "*"
clap = { version = "*", features = ["derive"] }
colored = "*"
glob = "*"
walkdir = "*"
