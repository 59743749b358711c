[package]
name = "kvs"
version = "0.1.0"
edition = "2021"
publish = false

[dependencies]
serde = { version = "1", features = ["derive"] }
serde_json = "1"
chashmap = "2.2.2"
rayon = "1"
crossbeam = "0.8"
sled = "0.34"
tokio = { version = "1", features = ["net", "io-util", "rt", "macros"] }
structopt = "0.3"
log = "0.4"
env_logger = "0.11"
num_cpus = "1"
