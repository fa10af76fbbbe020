[package]
name = "dioxionary"
version = "0.1.0"
edition = "2021"
publish = false

[dependencies]
flate2 = "*"
anyhow = "*"
clap = { version = "*", features = ["derive"] }
clap_complete = "*"
chrono = "*"
dirs = "*"
reqwest = { version = "*", default-features = false, features = ["blocking"] }
rusqlite = { version = "*", features = ["bundled"] }
scraper = "*"
serde = { version = "*", features = ["derive"] }
serde_json = "*"
tokio = { version = "*", features = ["rt"] }
toml = "*"
