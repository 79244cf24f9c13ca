[package]
name = "toolbox"
version = "0.1.0"
edition = "2021"
publish = false

[dependencies]
semver = "=1.0.28"
chrono = "=0.4.45"
regex = "=1.13.1"
clap = { version = "=4.6.7", features = ["derive", "env"] }
walkdir = "=2.5.0"
serde_json = "=1.0.154"
toml_edit = "=0.22.27"
glob = "=0.3.4"
csv = "=1.4.0"
serde = { version = "=1.0.229", features = ["derive"] }
dialoguer = "=0.11.0"
dirs = "=5.0.1"
colored = "=2.2.0"
indicatif = { version = "=0.17.11", features = ["rayon"] }
rayon = "=1.12.0"
fs_extra = "=1.3.0"
num_cpus = "=1.17.0"
humansize = "=2.1.3"
strsim = "=0.11.1"
hound = "=3.5.1"
rand = "=0.8.8"
log = "=0.4.35"
env_logger = "=0.11.11"
prettytable-rs = "=0.10.0"
mslnk = "=0.1.8"
image = { version = "=0.25.10", default-features = false, features = ["png", "jpeg"] }
docx-rs = "=0.4.22"
git2 = { version = "=0.19.0", default-features = false }
tokio = { version = "=1.54.1", features = ["rt-multi-thread", "macros", "fs", "io-util"] }
reqwest = { version = "=0.12.28", default-features = false, features = ["blocking", "rustls-tls"] }
