[package]
name = "vehicle_routing"
version = "0.1.0"
edition = "2021"
publish = false

[dependencies]
anyhow = "1.0.81"
serde = { version = "1.0.196", features = ["derive"] }
serde_json = "1.0.113"
rand = { version = "0.8.5", default-features = false, features = ["small_rng", "alloc"] }
