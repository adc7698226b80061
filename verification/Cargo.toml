[package]
name = "prime_number_catacombs"
version = "0.1.0"
edition = "2021"
publish = false

[dependencies]
num = { version = "0.4", features = ["rand"] }
rand = "0.8"
serde = { version = "1", features = ["derive"] }
serde_json = "1"
