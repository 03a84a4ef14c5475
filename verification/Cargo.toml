[package]
name = "neurotask"
version = "0.1.0"
edition = "2021"
publish = false

[dependencies]
chrono = "0.4"
iced = { version = "0.3", features = ["image"] }
iced_futures = "0.3"
iced_native = "0.4"
rodio = { version = "0.14", default-features = false, features = ["wav"] }
serde = { version = "1", features = ["derive"] }
serde_json = "1"
serde_yaml = "0.8"
