[package]
name = "solver_core"
version = "0.1.0"
edition = "2021"
publish = false

[dependencies]
serde = { version = "=1.0.229", features = ["derive"] }
serde_json = "=1.0.154"
uuid = { version = "=1.29.0", features = ["serde"] }
rand = { version = "0.9", features = ["small_rng"] }

[dev-dependencies]
uuid = { version = "=1.29.0", features = ["serde"] }
