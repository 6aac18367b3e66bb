[package]
name = "feather_bridge"
version = "0.1.0"
edition = "2021"
publish = false

[dependencies]
base64 = "*"
clap = { version = "*", features = ["derive"] }
env_logger = "*"
log = "*"
pandoc = "*"
quick-xml = { version = "*", features = ["serialize"] }
rand = "*"
regex = "*"
reqwest = { version = "*", default-features = false, features = ["blocking"] }
serde = { version = "*", features = ["derive"] }
serde_json = "*"
