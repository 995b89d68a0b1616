[package]
name = "rktop"
version = "0.1.0"
edition = "2021"
publish = false

[dependencies]
anyhow = "1"
crossterm = "0.28"
goblin = "0.9"
nix = { version = "0.29", features = ["user"] }
ratatui = "0.29"
regex = "1"
sysinfo = "0.32"
