[package]
name = "flashr"
version = "0.1.0"
edition = "2021"
publish = false

[dependencies]
rand = "*"
serde = { version = "*", features = ["derive"] }
serde_json = "*"
clap = { version = "*", features = ["derive"] }
crossterm = "*"
ratatui = "*"
dirs = "*"
unicode-width = "*"
