[package]
name = "kvwal"
version = "0.1.0"
edition = "2021"
publish = false

[dependencies]
hashlink = "*"
tokio = { version = "*", features = ["full"] }
futures = "*"
chrono = "*"
thiserror = "*"
