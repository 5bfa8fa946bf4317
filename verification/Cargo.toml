[package]
name = "sunder"
version = "0.1.0"
edition = "2021"
publish = false

[dependencies]
chrono = "=0.4.45"
hex = "=0.4.3"
lru = { version = "=0.18.5", default-features = false }
serde_yaml = "=0.9.34"
sha2 = "=0.11.0"
uuid = { version = "=1.27.0", features = ["v7"] }
