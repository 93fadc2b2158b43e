[package]
name = "rmap"
version = "0.1.0"
edition = "2021"
publish = false

[dependencies]
fancy-regex = "0.14"
serde = { version = "1", features = ["derive"] }
serde_json = "1"
tokio = { version = "1", features = ["full"] }
futures = "0.3"
indicatif = "0.17"
crossterm = "0.28"
ratatui = "0.29"
socket2 = { version = "0.5", features = ["all"] }
once_cell = "1"
