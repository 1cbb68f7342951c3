[package]
name = "system_monitor"
version = "0.1.0"
edition = "2021"
publish = false

[dependencies]
anyhow = "*"
clap = { version = "*", features = ["derive"] }
crossterm = "*"
ratatui = "*"
sysinfo = "*"
tokio = { version = "*", features = ["macros", "rt-multi-thread", "time"] }
