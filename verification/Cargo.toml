[package]
name = "elevator_system"
version = "0.1.0"
edition = "2021"
publish = false

[dependencies]
bincode = "1"
colored = "2"
dotenv = "0.15"
serde = { version = "1", features = ["derive"] }
tokio = { version = "1", features = ["full"] }
