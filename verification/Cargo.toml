[package]
name = "match_engine"
version = "0.1.0"
edition = "2021"
publish = false

[dependencies]
rand = "0.8"
serenity = { version = "0.12", features = ["collector"] }
poise = "0.6"
tokio = { version = "1", features = ["full"] }
reqwest = { version = "0.11", features = ["json"] }
serde = { version = "1", features = ["derive"] }
serde_json = "1"
statrs = "0.17"
tracing = "0.1"
tracing-subscriber = "0.3"
dotenv = "0.15"
