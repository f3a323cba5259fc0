[package]
name = "paperboy-tui"
version = "0.1.0"
edition = "2021"
publish = false

[dependencies]
ansi-to-tui = "7"
base64 = "0.22"
ratatui = "0.29"
