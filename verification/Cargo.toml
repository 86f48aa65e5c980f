[package]
name = "threshold_decryption"
version = "0.1.0"
edition = "2021"
publish = false

[dependencies]
rand = "*"
bitcode = { version = "*", features = ["serde"] }
serde = { version = "*", features = ["derive"] }
clap = { version = "*", features = ["derive"] }
env_logger = "*"
log = "*"
message-io = "*"
toml = "*"
dashmap = "*"
lazy_static = "*"
rayon = "*"
