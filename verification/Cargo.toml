[package]
name = "fooskill"
version = "0.1.0"
edition = "2021"
publish = false

[dependencies]
serde = { version = "=1.0.229", features = ["derive"] }
serde_json = "=1.0.151"
chrono = { version = "=0.4.45", features = ["serde"] }
redis = "=1.7.1"
uuid = { version = "=1.27.0", features = ["v4"] }
base64 = "=0.23.1"
cookie = { version = "=0.18.2", features = ["private", "key-expansion"] }
libm = "=0.2.16"
