[package]
name = "turbovec-pg-engine"
version = "0.1.0"
edition = "2021"
publish = false

[dependencies]
turbovec = "*"
serde = { version = "1", features = ["derive"] }
serde_json = "1"
pgrx = { version = "0.12.9", default-features = false, features = ["pg17"] }
