[package]
name = "udev-xpath"
version = "0.1.0"
edition = "2021"
publish = false

[dependencies]
base64 = "0.22"
frozen-collections = "*"
futures = "0.3"
indexmap = "2"
tap = "1"
tokio = { version = "1", features = ["sync", "time", "rt", "macros"] }
tokio-udev = "*"
udev = "*"
xee-xpath = "*"
xot = "*"
