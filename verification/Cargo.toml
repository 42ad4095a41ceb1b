[package]
name = "hydra"
version = "0.1.0"
edition = "2021"
publish = false

[dependencies]
crypto_box = "0.6"
num-bigint = "0.4"
num-primes = "*"
pbkdf2 = "0.10"
rand = "0.8"
log = "0.4"
env_logger = "*"
serde = { version = "1", features = ["derive"] }
bincode = "1"
fast_paths = "*"
mysql = "*"
mysql_common = "*"
msql-srv = "*"
