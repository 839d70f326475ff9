[package]
name = "tv_quotes"
version = "0.1.0"
edition = "2021"
publish = false

[dependencies]
serde_json = "1"
rand = "0.8"
chrono = "0.4"
anyhow = "1"
futures = "0.3"
tokio = { version = "1", features = ["rt-multi-thread", "macros", "sync"] }
tokio-tungstenite = { version = "0.18", features = ["rustls-tls-webpki-roots"] }
timeago = { version = "0.4", default-features = false, features = ["chrono"] }
eframe = { version = "0.20", default-features = false, features = ["glow", "default_fonts"] }
egui = "0.20"
