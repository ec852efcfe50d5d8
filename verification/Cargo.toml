[package]
name = "helix_lib"
version = "0.1.0"
edition = "2021"
publish = false

[dependencies]
ratatui = { version = "*", default-features = false, features = ["underline-color"] }
unicode-segmentation = "*"
unicode-width = "*"
log = "*"
chrono = "*"
tokio = { version = "*", features = ["sync"] }
serde = { version = "*", features = ["derive"] }
arc-swap = "*"
anyhow = "*"
ignore = "*"
