[package]
name = "nm_livesearch"
version = "0.1.0"
edition = "2021"
publish = false

[dependencies]
chrono = "0.4"
chrono-humanize = "0.2"
clap = { version = "3", features = ["derive"] }
home = "0.5"
notmuch = "0.8"
regex = "1"
serde = { version = "1", features = ["derive"] }
serde_json = "1"
