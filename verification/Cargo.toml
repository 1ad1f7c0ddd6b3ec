[package]
name = "ot-turbolaser"
version = "0.4.0"
edition = "2021"
publish = false

[dependencies]
clap = { version = "4", features = ["derive"] }
crc = "3"
env_logger = "0.11"
glob = "0.3"
ipnet = "2"
log = "0.4"
pcap-file = "2"
rand = "0.8"
rand_chacha = "0.3"
rand_distr = "0.4"
serde = { version = "1", features = ["derive"] }
serde_json = "1"
serde_norway = "0.9"
signal-hook = "0.3"
toml = "0.8"
