[package]
name = "daggyr"
version = "0.1.0"
edition = "2021"
publish = false

[dependencies]
chrono = "0.4"
deadpool-postgres = "*"
futures = "0.3"
reqwest = { version = "0.11", default-features = false, features = ["json"] }
serde = { version = "1", features = ["derive"] }
serde_json = "1"
tokio = { version = "1", features = ["full"] }
tokio-postgres = "*"
