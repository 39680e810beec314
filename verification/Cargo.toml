[package]
name = "gravity_notes"
version = "0.1.0"
edition = "2021"
publish = false

[dependencies]
html2md = "0.2"
chrono = "0.4"
serde = { version = "1", features = ["derive"] }
log = "0.4"
dirs = "*"
arboard = { version = "3", default-features = false }
