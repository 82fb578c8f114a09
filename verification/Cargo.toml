[package]
name = "hybrid_mount"
version = "0.1.0"
edition = "2021"
publish = false

[dependencies]
anyhow = "1"
clap = { version = "4", features = ["derive"] }
env_logger = "*"
extattr = "*"
libc = "0.2"
log = "0.4"
loopdev = "*"
mimalloc = "*"
procfs = "*"
rayon = "1"
rustix = { version = "*", features = ["fs", "mount", "process"] }
serde = { version = "1", features = ["derive"] }
serde_json = "1"
toml = "*"
tracing = "0.1"
walkdir = "2"
