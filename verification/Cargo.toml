[package]
name = "saloon"
version = "0.1.0"
edition = "2021"
publish = false

[dependencies]
anyhow = "1"
bytes = "1"
config = { version = "*", default-features = false, features = ["yaml"] }
serde = { version = "1", features = ["derive"] }
serde-aux = "*"
tokio = { version = "1", features = ["rt", "sync", "time"] }
tonic = { version = "*", default-features = false }
uuid = "1"
