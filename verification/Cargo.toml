[package]
name = "lipu_tenpo"
version = "0.1.0"
edition = "2021"
publish = false

[dependencies]
chrono = "=0.4.45"
indicium = "=0.6.10"
kstring = "=2.0.2"
clap = { version = "=4.6.7", features = ["derive"] }
crossterm = "=0.29.0"
ratatui = "=0.30.2"
tui-input = "=0.15.5"
directories = "=6.0.0"
toml = "=1.1.6"
serde = { version = "=1.0.229", features = ["derive"] }
fuzzydate = "=0.4.1"
