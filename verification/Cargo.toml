[package]
name = "arcane"
version = "0.1.0"
edition = "2021"
publish = false

[dependencies]
trie-rs = "0.4"
crossterm = "0.28"
ratatui = "0.29"
color-eyre = "0.6"
directories = "5"
serde = { version = "1", features = ["derive"] }
serde_json = "1"
tracing = "0.1"
