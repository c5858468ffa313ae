[package]
name = "fano"
version = "0.1.0"
edition = "2021"
publish = false

[dependencies]
itertools = "0.12"
clap = { version = "4", features = ["derive"] }
color-eyre = "0.6"
crossterm = "0.27"
ratatui = "0.26"
thiserror = "1"
