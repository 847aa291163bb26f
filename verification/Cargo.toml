[package]
name = "uncovr"
version = "0.1.0"
edition = "2021"
publish = false

[dependencies]
axum = "*"
bytes = "*"
futures = "*"
http = "*"
serde = "*"
serde_json = "*"
tower = { version = "*", features = ["util"] }
