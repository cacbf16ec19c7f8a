[package]
name = "war_analyzer"
version = "0.1.0"
edition = "2021"
publish = false

[dependencies]
base64 = "=0.22.1"
png = "=0.17.16"
serde = { version = "1", features = ["derive"] }
anyhow = "1"
clap = { version = "4", features = ["derive"] }
ico = "0.4"
image = { version = "0.25", default-features = false }
resvg = { version = "0.45", default-features = false }
tauri = { version = "2", default-features = false }
