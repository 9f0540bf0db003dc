[package]
name = "pulse_trader_rust"
version = "0.1.0"
edition = "2021"
publish = false

[dependencies]
anyhow = "1"
chrono = { version = "0.4", features = ["serde"] }
env_logger = "*"
flate2 = "1"
log = "0.4"
num_cpus = "1"
rayon = "1"
serde = { version = "1", features = ["derive"] }
tokio = { version = "1", default-features = false, features = ["sync"] }
walkdir = "2"
zip = { version = "*", default-features = false }

[dev-dependencies]
tempfile = "3"
