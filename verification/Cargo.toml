[package]
name = "porc"
version = "0.1.0"
edition = "2021"
publish = false

[dependencies]
clap = { version = "4", features = ["derive"] }
crossterm = "0.28"
nix = { version = "0.29", features = ["signal"] }
num-format = "0.4"
ratatui = "0.28"
regex = "1"
sysinfo = "0.30"
