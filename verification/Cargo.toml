[package]
name = "chat_backend"
version = "0.1.0"
edition = "2021"
publish = false

[dependencies]
actix-web = "*"
config = "*"
env_logger = "*"
futures-util = "*"
log = "*"
serde = { version = "*", features = ["derive"] }
serde-aux = "*"
serde_json = "*"
tokio = { version = "*", features = ["full"] }
tokio-tungstenite = "*"
