[package]
name = "pingtest"
version = "0.2.1"
edition = "2021"
publish = false

[dependencies]
ipnetwork = "0.20"
dns-lookup = "2"
surge-ping = "0.8"
tokio = { version = "1", features = ["rt-multi-thread", "time", "sync"] }
parking_lot = "0.12"
serde = { version = "1", features = ["derive"] }
serde_json = "1"
log = "0.4"
env_logger = "0.11"
egui = "0.29"
egui_extras = "0.29"
