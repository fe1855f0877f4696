[package]
name = "tui_hex_view"
version = "0.1.0"
edition = "2021"
publish = false

[dependencies]
ratatui = "0.29"
crossterm = "0.28"
unicode-width = "0.2"
ansi-to-tui = "7"
