[package]
name = "breaks"
version = "0.1.0"
edition = "2021"
publish = false

[dependencies]
anyhow = "1"
druid = "0.8"
home = "0.5"
serde = { version = "1", features = ["derive"] }
toml = "0.7"
tts = "0.26"
user-idle = "*"
