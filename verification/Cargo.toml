[package]
name = "payments_engine"
version = "0.1.0"
edition = "2021"
publish = false

[dependencies]
csv = "*"
serde = { version = "*", features = ["derive"] }
thiserror = "*"
log = "*"
env_logger = "*"
rust_decimal = "*"
