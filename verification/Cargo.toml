[package]
name = "route_finder"
version = "0.1.0"
edition = "2021"
publish = false

[dependencies]
csv = "1"
petgraph = "*"
serde = { version = "1", features = ["derive"] }
serde_json = "1"
