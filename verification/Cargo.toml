[package]
name = "euv-app"
version = "0.1.0"
edition = "2021"
publish = false

[dependencies]
percent-encoding = "2"
http = "1"
serde = { version = "1", features = ["derive"] }
tokio = { version = "1", features = ["fs", "time", "rt", "macros"] }
reqwest = { version = "0.12", default-features = false }
tauri = { version = "2", default-features = false, features = ["wry"] }
log = "0.4"
