[package]
name = "sway"
version = "0.1.0"
edition = "2021"
publish = false

[dependencies]
anyhow = "1"
base64 = "0.22"
blake3 = "1"
ebur128 = "0.1"
env_logger = "0.11"
image = { version = "0.25", default-features = false, features = ["jpeg", "png"] }
lofty = "*"
log = "0.4"
mdns-sd = "*"
notify-debouncer-mini = "*"
rodio = { version = "0.20", default-features = false, features = ["symphonia-all"] }
rusqlite = { version = "*", features = ["bundled"] }
serde = { version = "1", features = ["derive"] }
serde_json = "1"
snow = "*"
trash = "*"
uuid = { version = "1", features = ["v4"] }
walkdir = "2"
