[package]
name = "stream_analytics"
version = "0.1.0"
edition = "2021"
publish = false

[dependencies]
dashmap = "*"
parking_lot = "*"
rayon = "*"
rustfft = "*"
serde = { version = "1", features = ["derive"] }
thiserror = "*"
