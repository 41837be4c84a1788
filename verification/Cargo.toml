[package]
name = "blazingjj"
version = "0.1.0"
edition = "2021"
publish = false

[dependencies]
ratatui = "=0.30.2"
ansi-to-tui = "=8.0.1"
ratatui-textarea = "*"
tui-menu = "=0.3.1"
tui_confirm_dialog = "=0.4.1"
anyhow = "=1.0.104"
clap = { version = "=4.6.7", features = ["derive", "env"] }
tracing = "=0.1.44"
tracing-subscriber = "=0.3.23"
tracing-chrome = "=0.7.2"
