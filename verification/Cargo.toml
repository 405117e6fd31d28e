[package]
name = "rustycable"
version = "0.1.0"
edition = "2021"
publish = false

[dependencies]
serde_json = "1"
uuid = { version = "1", features = ["v4"] }
chrono = "0.4"
serde = { version = "1", features = ["derive"] }
tokio = { version = "1", features = ["full"] }
futures-util = { version = "0.3", features = ["sink"] }
tokio-tungstenite = "*"
redis = { version = "*", features = ["tokio-comp"] }
tonic = "0.12"
prost = "0.13"
http = "1"
