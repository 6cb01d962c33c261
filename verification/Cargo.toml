[package]
name = "liquidtempd"
version = "0.1.0"
edition = "2021"
publish = false

[dependencies]
anyhow = "*"
clap = { version = "*", features = ["derive"] }
csscolorparser = { version = "*", features = ["serde"] }
ctrlc = "*"
env_logger = "*"
log = "*"
serde = { version = "*", features = ["derive"] }
serde_yaml = "*"
xdg = "*"
