[package]
name = "order_book"
version = "0.1.0"
edition = "2021"
publish = false

[dependencies]
futures-util = "*"
serde = { version = "*", features = ["derive"] }
serde_json = "*"
tokio = { version = "*", features = ["macros", "rt-multi-thread"] }
tokio-tungstenite = "*"
url = "*"
