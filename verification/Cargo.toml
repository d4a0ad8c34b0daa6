[package]
name = "sshniff"
version = "0.1.0"
edition = "2021"
publish = false

[dependencies]
ansi_term = "0.12"
chrono = { version = "0.4", default-features = false, features = ["std"] }
clap = { version = "4", features = ["derive"] }
hex = "0.4"
log = "0.4"
md-5 = "0.10"
rtshark = "*"
serde = { version = "1", features = ["derive"] }
serde_json = "1"
simple_logger = "*"
