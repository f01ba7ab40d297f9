[package]
name = "rekey"
version = "0.1.0"
edition = "2021"
publish = false

[dependencies]
unicode-normalization = "0.1"
serde = { version = "1", features = ["derive"] }
serde_json = "1"
ureq = { version = "3", features = ["json"] }
log = "0.4"
env_logger = "0.11"
dirs = "6"
core-foundation = "0.10"
core-graphics = "0.25"
foreign-types = "0.5"
objc2-app-kit = "0.3"
