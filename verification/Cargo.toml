[package]
name = "wavalyze"
version = "0.1.0"
edition = "2021"
publish = false

[dependencies]
egui = { version = "=0.37.0", default-features = false }
anyhow = "=1.0.104"
serde = { version = "=1.0.229", features = ["derive"] }
notify = "8"

[dev-dependencies]
slotmap = "=1.1.1"
