[package]
name = "ningshi"
version = "0.4.3"
edition = "2021"
publish = false

[dependencies]
anyhow = "1"
aya = "0.13"
chrono = "0.4"
libc = "0.2"
serde = { version = "1", features = ["derive"] }
serde_json = "1"
