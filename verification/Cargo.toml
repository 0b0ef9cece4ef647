[package]
name = "gazflow"
version = "0.1.0"
edition = "2021"
publish = false

[dependencies]
anyhow = "=1.0.104"
faer = "=0.24.4"
rayon = "=1.12.0"
serde = { version = "=1.0.229", features = ["derive"] }
tracing = "=0.1.44"
