[package]
name = "lidar_monitor"
version = "0.1.0"
edition = "2021"
publish = false

[dependencies]
axum = "0.7"
env_logger = "0.11"
minifb = "0.27"
serde = { version = "1", features = ["derive"] }
tokio = { version = "1", features = ["full"] }
