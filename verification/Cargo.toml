[package]
name = "taglog"
version = "0.1.0"
edition = "2021"
publish = false

[dependencies]
chrono = "*"
rouille = "*"
serde = { version = "*", features = ["derive"] }
