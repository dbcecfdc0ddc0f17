[package]
name = "whkd"
version = "0.1.0"
edition = "2021"
publish = false

[dependencies]
active-win-pos-rs = "*"
chumsky = "0.9"
clap = { version = "4", features = ["derive"] }
color-eyre = "*"
dirs = "*"
lazy_static = "1"
parking_lot = "0.12"
win-hotkeys = "*"
