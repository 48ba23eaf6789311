[package]
name = "bh"
version = "0.1.0"
edition = "2021"
publish = false

[dependencies]
crossterm = "*"
dirs = "*"
libc = "*"
serde = { version = "*", features = ["derive"] }
serde_json = "*"
toml = "*"
unicode-width = "*"
