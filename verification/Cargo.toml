[package]
name = "dantesync"
version = "1.7.2"
edition = "2021"
publish = false

[dependencies]
anyhow = "1"
chrono = "0.4"
clap = { version = "4", features = ["derive"] }
ctrlc = "3"
env_logger = "0.11"
if-addrs = "*"
libc = "0.2"
log = "0.4"
nix = { version = "0.27", features = ["fs", "ioctl", "net", "socket", "time", "uio"] }
rsntp = "4"
sd-notify = "0.4"
serde = { version = "1", features = ["derive"] }
serde_json = "1"
socket2 = "0.5"

[dev-dependencies]
rand = "0.8"
