[package]
name = "feedwalker"
version = "0.1.0"
edition = "2021"
publish = false

[dependencies]
time = { version = "=0.3.55", features = ["parsing", "formatting", "local-offset"] }
timeago = "=0.6.1"
tokio = { version = "*", features = ["rt", "macros", "time", "sync"] }
ctrlc = "*"
serde = { version = "*", features = ["derive"] }
serde_json = "*"
anyhow = "*"
log = "*"
pretty_env_logger = "*"
reqwest = { version = "*", default-features = false, features = ["json"] }
