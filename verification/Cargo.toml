[package]
name = "obsj"
version = "0.1.0"
edition = "2021"
publish = false

[dependencies]
clap = "4"
faster-hex = "*"
flate2 = "1"
rinex = "0.22"
rtcm-rs = "0.11"
rustc-hash = "2"
serde = { version = "1", features = ["derive"] }
serde_json = { version = "1", features = ["raw_value"] }
thiserror = "2"
toml = "0.8"
ublox = "0.10"
