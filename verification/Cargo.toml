[package]
name = "golem"
version = "0.1.0"
edition = "2021"
publish = false

[dependencies]
argon2 = { version = "0.5", features = ["std"] }
rand = "0.8"
rand_core = { version = "0.6", features = ["getrandom"] }
axum = { version = "0.6", features = ["ws", "headers"] }
tokio = { version = "1", features = ["full"] }
futures = "0.3"
serde = { version = "1", features = ["derive"] }
serde_json = "1"
rusqlite = { version = "*", features = ["bundled"] }
snowcloud = "*"
