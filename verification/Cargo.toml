[package]
name = "spider_core"
version = "0.1.0"
edition = "2021"
publish = false

[dependencies]
url = "*"
chadselect = "*"
anyhow = "*"
serde = { version = "*", features = ["derive"] }
serde_json = "*"
serde_yaml = "*"
toml = "*"
clap = { version = "*", features = ["derive"] }
tokio = { version = "*", features = ["macros", "rt-multi-thread", "sync", "signal"] }
tokio-util = "*"
sqlx = { version = "*", default-features = false, features = ["runtime-tokio", "sqlite"] }
spider = { version = "*", default-features = false, features = ["sync"] }
