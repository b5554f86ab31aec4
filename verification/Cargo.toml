[package]
name = "neuraldeep_desktop"
version = "0.1.0"
edition = "2021"
publish = false

[dependencies]
base64 = "=0.22.1"
dirs = "=6.0.0"
futures-util = "0.3"
reqwest = { version = "0.12", default-features = false, features = ["json", "stream", "multipart", "rustls-tls"] }
serde = { version = "1", features = ["derive"] }
serde_json = "=1.0.154"
tauri = { version = "2", default-features = false }
tokio = { version = "1", features = ["time", "rt"] }
