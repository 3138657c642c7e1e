[package]
name = "mor_proj"
version = "0.1.0"
edition = "2021"
publish = false

[dependencies]
rand = "0.8"
chrono = "0.4"
clap = { version = "4", default-features = false, features = ["std", "help", "usage", "error-context"] }
crossbeam = "0.8"
serde = { version = "1", features = ["derive"] }
serde_json = "1"
