[package]
name = "dbc"
version = "0.1.0"
edition = "2021"
publish = false

[dependencies]
clap = { version = "4", features = ["derive"] }
crossterm = "0.27"
serde_json = "1"
ureq = { version = "2", features = ["json"] }
