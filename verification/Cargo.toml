[package]
name = "coreos_installer"
version = "0.1.0"
edition = "2021"
publish = false

[dependencies]
anyhow = "=1.0.104"
base64 = "0.22"
bincode = "=1.3.3"
clap = { version = "=4.6.7", features = ["derive"] }
cpio = "=0.2.2"
flate2 = "=1.1.10"
glob = "=0.3.4"
hex = "=0.4.3"
ignition-config = "*"
nix = { version = "=0.29.0", features = ["feature"] }
openssl = "=0.10.82"
serde = { version = "=1.0.229", features = ["derive"] }
serde_json = "=1.0.154"
serde_yaml = "0.9"
xz2 = "=0.1.7"
zstd = "=0.13.4"
