[package]
name = "batocera_menu"
version = "0.1.0"
edition = "2021"
publish = false

[dependencies]
anyhow = "1"
clap = { version = "4", features = ["derive"] }
crossterm = "0.28"
indexmap = { version = "2", features = ["serde"] }
ratatui = "0.29"
serde = { version = "1", features = ["derive"] }
serde_yaml = "0.9"
