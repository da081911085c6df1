[package]
name = "orsiktop"
version = "0.1.0"
edition = "2021"
publish = false

[dependencies]
clap = { version = "4", features = ["derive", "env"] }
crossterm = "0.28"
nvml-wrapper = "*"
ratatui = "0.29"
reqwest = { version = "0.12", default-features = false, features = ["blocking"] }
serde_json = "1"
sysinfo = "*"
