[package]
name = "cgt"
version = "0.1.0"
edition = "2021"
publish = false

[dependencies]
gcd = "2"
num-rational = { version = "0.4", default-features = false }
anyhow = "1"
chrono = "0.4"
clap = { version = "4", features = ["derive"] }
rayon = "1"
serde = { version = "1", features = ["derive"] }
serde_json = "1"
