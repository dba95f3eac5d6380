[package]
name = "event_log_converter"
version = "0.1.0"
edition = "2021"
publish = false

[dependencies]
chrono = "*"
csv = "*"
quick-xml = "*"
clap = { version = "*", features = ["derive"] }
