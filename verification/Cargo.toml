[package]
name = "mbei"
version = "0.1.0"
edition = "2021"
publish = false

[dependencies]
bincode = "=2.0.1"
seahash = "=4.1.0"
uuid = { version = "=0.8.2", features = ["v4"] }
rand_chacha = "=0.3.1"
log = "=0.4.34"
env_logger = "=0.9.3"
structopt = "=0.3.26"
serde = { version = "=1.0.229", features = ["derive"] }
serde_yaml = "=0.8.26"
tokio = { version = "=1.54.1", features = ["full"] }
tonic = "=0.7.2"
prost = "=0.10.4"
backoff = { version = "=0.4.0", features = ["tokio"] }
hostname = "=0.3.1"
futures-util = "=0.3.34"
rusqlite = { version = "=0.27.0", features = ["bundled"] }
