[package]
name = "anime_influence"
version = "0.1.0"
edition = "2021"
publish = false

[dependencies]
csv = "1"
petgraph = "0.6"
rand = "0.8"
serde = { version = "1", features = ["derive"] }
