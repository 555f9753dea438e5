[package]
name = "rmux_fastcopy"
version = "0.1.0"
edition = "2021"
publish = false

[dependencies]
regex = "1"
shell-words = "1"
unicode-width = "0.2"
anyhow = "1"
clap = { version = "4", features = ["derive", "env"] }
crossterm = "0.28"
