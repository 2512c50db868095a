[package]
name = "editor_core"
version = "0.1.0"
edition = "2021"
publish = false

[dependencies]
anyhow = "1"
crossterm = "0.28"
dirs = "5"
ratatui = "0.29"
thiserror = "2"
tracing = "0.1"
tracing-subscriber = "0.3"
