[package]
name = "harmony"
version = "0.1.0"
edition = "2021"
publish = false

[dependencies]
rand = "0.8"
anyhow = "1"
axum = { version = "0.6", features = ["headers"] }
clap = { version = "4", features = ["derive"] }
colored = "2"
dialoguer = "0.10"
env_logger = "0.10"
filetime = "0.2"
futures-util = "0.3"
gethostname = "0.4"
indicatif = "0.17"
log = "0.4"
num_cpus = "1"
reqwest = { version = "0.11", default-features = false, features = ["json", "stream"] }
serde = { version = "1", features = ["derive"] }
serde_json = "1"
time = "0.3"
tokio = { version = "1", features = ["full"] }
tokio-util = { version = "0.7", features = ["codec"] }
walkdir = "2"
