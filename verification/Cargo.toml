[package]
name = "playlist_modify_rs"
version = "0.1.0"
edition = "2021"
publish = false

[dependencies]
anyhow = "1"
clap = { version = "4", features = ["derive"] }
either = "1"
itertools = "*"
reqwest = { version = "*", features = ["blocking"] }
tap = "1"
