[package]
name = "hint_resolver"
version = "0.1.0"
edition = "2021"
publish = false

[dependencies]
log = "0.4"
phf = "0.11"
phf_generator = "0.11"
serde = { version = "1", features = ["derive"] }
serde_json = "1"
tauri = { version = "2", default-features = false, features = ["wry"] }
