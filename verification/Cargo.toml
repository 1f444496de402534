[package]
name = "prime_power_search"
version = "0.1.0"
edition = "2021"
publish = false

[dependencies]
num-bigint = "*"
num-traits = "*"
serde = { version = "*", features = ["derive"] }
serde_json = "*"
clap = { version = "*", features = ["derive"] }
env_logger = "*"
log = "*"
indicatif = { version = "*", features = ["rayon"] }
rayon = "*"
