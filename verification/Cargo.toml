[package]
name = "cal7tor"
version = "0.1.0"
edition = "2021"
publish = false

[dependencies]
chrono = "0.4"
clap = { version = "4", features = ["derive"] }
dialoguer = "0.11"
ics = "0.5"
regex = "1"
reqwest = { version = "0.12", default-features = false }
scraper = "0.20"
tokio = { version = "1", features = ["macros", "rt-multi-thread"] }
uuid = { version = "1", features = ["v4"] }
