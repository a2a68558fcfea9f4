[package]
name = "mcl"
version = "0.1.0"
edition = "2021"
publish = false

[dependencies]
anyhow = "*"
clap = { version = "*", features = ["derive"] }
env_logger = "*"
fastanvil = "*"
fastnbt = "*"
log = "*"
rayon = "*"
serde = { version = "*", features = ["derive"] }
serde_json = "*"
