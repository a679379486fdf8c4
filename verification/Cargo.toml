[package]
name = "csvlens"
version = "0.1.0"
edition = "2021"
publish = false

[dependencies]
anyhow = "=1.0.104"
clap = { version = "=4.6.7", features = ["derive"] }
tempfile = "=3.27.0"
termion = "=1.5.6"
tui = { version = "=0.19.0", features = ["termion"] }
