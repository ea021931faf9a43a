[package]
name = "live_index"
version = "0.1.0"
edition = "2021"
publish = false

[dependencies]
chrono = "0.4"
nexrad-data = { version = "*", features = ["aws"] }
xml-rs = "0.8"
tokio = { version = "1", features = ["rt", "sync"] }
reqwest = { version = "0.12", default-features = false, features = ["rustls-tls"] }
