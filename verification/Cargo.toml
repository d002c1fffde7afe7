[package]
name = "wikipath"
version = "0.1.0"
edition = "2021"
publish = false

[dependencies]
anyhow = "=1.0.104"
axum = "=0.8.9"
clap = { version = "=4.6.7", features = ["derive"] }
crossbeam-channel = "=0.5.17"
data-encoding = "=2.11.1"
env_logger = "=0.11.11"
flate2 = "=1.1.10"
heed = "=0.22.1"
humantime = "=2.4.0"
log = "=0.4.34"
notify-debouncer-mini = "=0.7.0"
regex = "=1.13.1"
reqwest = "=0.13.5"
ring = "=0.17.14"
serde = { version = "=1.0.229", features = ["derive"] }
sysinfo = "=0.39.6"
tokio = { version = "=1.54.1", features = ["full"] }
tower = "=0.5.3"
tower-http = { version = "=0.6.11", features = ["fs", "set-header", "timeout"] }
