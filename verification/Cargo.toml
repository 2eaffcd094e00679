[package]
name = "crispy_code"
version = "0.1.0"
edition = "2021"
publish = false

[dependencies]
num = "0.4"
rtrb = "0.3"
serde = { version = "1", features = ["derive"] }
serde_json = "1"
axum = { version = "0.7", features = ["macros"] }
tokio = { version = "1", features = ["rt", "net", "sync", "macros"] }
reqwest = { version = "0.12", default-features = false, features = ["blocking", "json"] }
rhai = "1"
rustyline = "*"
env_logger = "*"
logos = "*"
