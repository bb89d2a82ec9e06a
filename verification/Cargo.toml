[package]
name = "availdb"
version = "0.1.0"
edition = "2021"
publish = false

[dependencies]
chrono = "*"
uuid = { version = "*", features = ["v4"] }
reqwest = "*"
serde_json = "*"
tokio = { version = "*", features = ["macros", "rt-multi-thread"] }
dotenvy = "*"
