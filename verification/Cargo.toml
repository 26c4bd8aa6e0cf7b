[package]
name = "repowatch"
version = "0.1.0"
edition = "2021"
publish = false

[dependencies]
anyhow = "*"
chrono = "=0.4.45"
clap = { version = "*", features = ["derive"] }
octocrab = "=0.44.1"
serde = { version = "*", features = ["derive"] }
serde_json = "*"
sled = "=0.34.7"
thiserror = "*"
tokio = { version = "*", features = ["macros", "rt-multi-thread"] }
toml = "*"
url = "*"
