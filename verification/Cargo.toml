[package]
name = "spsa_tui"
version = "0.1.0"
edition = "2021"
publish = false

[dependencies]
chessframe = "*"
rand = "*"
ratatui = "*"
serde = { version = "1", features = ["derive"] }
serde_json = "1"
libc = "0.2"
