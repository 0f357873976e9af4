[package]
name = "log_session"
version = "0.1.0"
edition = "2021"
publish = false

[dependencies]
ewebsock = "*"

[dev-dependencies]
serde_json = "*"
