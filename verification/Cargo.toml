[package]
name = "opendal_service_container"
version = "0.1.0"
edition = "2021"
publish = false

[dependencies]
opendal-core = { version = "*", default-features = false }
bytes = "1"
flate2 = "1"
tar = "0.4"
serde = { version = "1", features = ["derive"] }
serde_json = "1"
