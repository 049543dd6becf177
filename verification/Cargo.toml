[package]
name = "runix"
version = "0.1.0"
edition = "2021"
publish = false

[dependencies]
anyhow = "1"
log = "0.4"
env_logger = "0.11"
fd-lock = "4"
filetime = "0.2"
itertools = "*"
lazy_static = "1"
memmap2 = "0.9"
nix-nar = "*"
reqwest = { version = "0.12", default-features = false, features = ["blocking", "rustls-tls"] }
serde = { version = "1", features = ["derive"] }
serde_json = "1"
walkdir = "2"
