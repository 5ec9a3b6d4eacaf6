[package]
name = "viewfs"
version = "0.1.0"
edition = "2021"
publish = false

[dependencies]
anyhow = "=1.0.104"
caps = "=0.5.6"
clap = { version = "=4.6.7", features = ["derive"] }
env_logger = "=0.11.11"
fuser = "=0.18.0"
log = "=0.4.35"
nix = { version = "=0.31.3", features = ["fs", "ioctl", "process", "signal", "socket", "uio", "user"] }
parking_lot = "=0.12.5"
slotmap = "=1.1.1"
walkdir = "=2.5.0"

[dev-dependencies]
nom = "=8.0.0"
