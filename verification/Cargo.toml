[package]
name = "flightlogr"
version = "0.1.0"
edition = "2021"
publish = false

[dependencies]
anyhow = "=1.0.104"
chrono = "=0.4.45"
clap = { version = "=4.6.7", features = ["derive"] }
csv = "=1.4.0"
dms-coordinates = "=0.1.5"
env_logger = "=0.11.11"
fcm-notification = "=0.1.2"
futures = "=0.3.34"
geo = "=0.23.1"
log = "=0.4.35"
quantities = { version = "=0.15.6", features = ["length", "speed", "duration", "f64"] }
reqwest = { version = "=0.11.27", default-features = false, features = ["rustls-tls"] }
serde = { version = "=1.0.229", features = ["derive"] }
serde_json = "=1.0.154"
tokio = { version = "=1.54.1", features = ["full"] }
tokio-stream = "=0.1.19"
toml = "=1.1.8"
