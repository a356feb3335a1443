[package]
name = "dot"
version = "0.1.0"
edition = "2021"
publish = false

[dependencies]
clap = { version = "*", features = ["derive"] }
directories-next = "*"
serde = { version = "*", features = ["derive"] }
walkdir = "*"
