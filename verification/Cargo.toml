[package]
name = "event_store"
version = "0.1.0"
edition = "2021"
publish = false

[dependencies]
evtx = { version = "=0.13.0", default-features = false }
serde = { version = "=1.0.229", features = ["derive"] }
serde_json = { version = "=1.0.154", features = ["preserve_order"] }
tauri = { version = "=2.12.5", default-features = false }
