[package]
name = "startui"
version = "0.1.0"
edition = "2021"
publish = false

[dependencies]
chrono = "0.4"
crossterm = "*"
dirs = "*"
feed-rs = "*"
open = "*"
ratatui = "*"
serde = { version = "1", features = ["derive"] }
sysinfo = "*"
toml = "*"
ureq = "*"
