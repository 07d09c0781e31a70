[package]
name = "chat_core"
version = "0.1.0"
edition = "2021"
publish = false

[dependencies]
uuid = { version = "*", features = ["v4"] }
chrono = "*"
actix = "*"
actix-web = "*"
actix-web-actors = "*"
actix-files = "*"
diesel = { version = "*", features = ["sqlite", "r2d2"] }
serde = { version = "*", features = ["derive"] }
serde_json = "*"
