[package]
name = "vigil"
version = "0.1.0"
edition = "2021"
publish = false

[dependencies]
clap = { version = "4", features = ["derive"] }
crossterm = "=0.29.0"
dirs = "=7.0.0"
ratatui = "=0.30.2"
serde = { version = "1", features = ["derive"] }
serde_json = "=1.0.154"
sysinfo = "=0.39.6"
tao = "=0.37.2"
tray-icon = "=0.26.1"
urlencoding = "=2.1.3"
