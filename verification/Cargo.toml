[package]
name = "vanguard"
version = "0.1.0"
edition = "2021"
publish = false

[dependencies]
uuid = { version = "1", features = ["v4", "serde"] }
pathfinding = "4"
serde = { version = "1", features = ["derive"] }
serde_json = "1"
tokio = { version = "1", features = ["macros", "rt-multi-thread", "time"] }
async-nats = "*"
futures = "0.3"
anyhow = "1"
clap = { version = "4", features = ["derive"] }
nalgebra = "*"
