[package]
name = "piecer"
version = "0.1.0"
edition = "2021"
publish = false

[dependencies]
daachorse = "1"
priority-queue = "2"
rayon = "1"
regex = "1"
rustc-hash = "2"
serde = { version = "1", features = ["derive"] }
serde_json = "1"
thiserror = "2"
