[package]
name = "jagged_array"
version = "0.1.0"
edition = "2021"
publish = false

[dependencies]
serde = { version = "1", features = ["derive"] }
streaming-iterator = "0.1"

[dev-dependencies]
serde_json = "1"
