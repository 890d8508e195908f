[package]
name = "puppydrive"
version = "0.1.0"
edition = "2021"
publish = false

[dependencies]
anyhow = "*"
chrono = "*"
clap = { version = "*", features = ["derive"] }
futures-util = "*"
infer = "*"
log = "*"
mime_guess = "*"
rayon = "*"
rusqlite = { version = "*", features = ["bundled"] }
sha2 = "*"
simple_logger = "*"
tokio = { version = "*", features = ["full"] }
tokio-tungstenite = "*"
walkdir = "*"
