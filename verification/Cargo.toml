[package]
name = "wordle_lol"
version = "0.1.0"
edition = "2021"
publish = false

[dependencies]
chrono = "0.4"
clap = { version = "4", features = ["derive"] }
num-format = "0.4"
reqwest = { version = "0.11", features = ["blocking"] }
scraper = "*"
serde = "1"
serde_json = "1"
url = "2"
