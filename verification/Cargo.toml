[package]
name = "magog"
version = "0.1.0"
edition = "2021"
publish = false

[dependencies]
rand = "=0.8.8"
pathfinding = "=4.16.0"
serde = { version = "=1.0.229", features = ["derive"] }
idm = "=0.4.4"
anyhow = "=1.0.104"
image = { version = "0.25", default-features = false, features = ["png"] }
