[package]
name = "active_app_volume"
version = "0.1.0"
edition = "2021"
publish = false

[dependencies]
clap = "2"
sysinfo = "0.9"
libpulse-binding = "2"
xcb = { version = "0.8", features = [] }
xcb-util = { version = "0.2", features = ["ewmh"] }
env_logger = "0.6"
log = "0.4"
