[package]
name = "arroyo_control"
version = "0.1.0"
edition = "2021"
publish = false

[dependencies]
regex = "=1.13.1"
prqlc = { version = "=0.13.14", default-features = false }
uuid = { version = "=1.29.0", features = ["v4"] }
serde_json = "=1.0.154"
