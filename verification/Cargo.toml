[package]
name = "dateifinder"
version = "0.1.1"
edition = "2021"
publish = false

[dependencies]
serde = { version = "1", features = ["derive"] }
tauri = { version = "2", default-features = false, features = ["wry"] }
tauri-plugin-dialog = { version = "2", default-features = false }
tauri-plugin-store = { version = "2", default-features = false }
