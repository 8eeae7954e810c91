[package]
name = "herdr-simple-prompts"
version = "0.3.0"
edition = "2021"
publish = false

[dependencies]
chrono = "0.4"
crossterm = "0.28"
ratatui = "0.29"
serde_json = "1"
unicode-width = "0.2"
