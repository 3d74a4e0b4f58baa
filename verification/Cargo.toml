[package]
name = "rewatch"
version = "0.1.0"
edition = "2021"
publish = false

[dependencies]
ahash = "0.8"
anyhow = "=1.0.104"
clap = { version = "=4.6.7", features = ["derive"] }
clap-verbosity-flag = "=2.2.3"
console = "0.15"
convert_case = "=0.6.0"
env_logger = "=0.10.2"
futures = "0.3"
futures-timer = "3"
log = "=0.4.35"
notify = "5"
rayon = "1"
regex = "=1.13.1"
serde = { version = "=1.0.229", features = ["derive"] }
serde_json = "=1.0.154"
sysinfo = "=0.29.11"
