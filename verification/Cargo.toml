[package]
name = "engine"
version = "0.1.0"
edition = "2021"
publish = false

[dependencies]
bincode = "1.3"
itertools = "0.12"
serde = { version = "1", features = ["derive"] }
serde_json = "1"
actix-web = "4"
tokio = { version = "1", features = ["macros", "rt-multi-thread"] }
mongodb = "2"
futures = "0.3"
