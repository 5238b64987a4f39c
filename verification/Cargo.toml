[package]
name = "git_split"
version = "0.1.0"
edition = "2021"
publish = false

[dependencies]
path-clean = "=1.0.1"
rand = "=0.8.8"
clap = { version = "4", features = ["derive"] }
color-eyre = "0.6"
crossterm = "0.27"
eyre = "0.6"
ratatui = "0.27"
tempfile = "3"
thiserror = "1"
tui-textarea = "0.5"
