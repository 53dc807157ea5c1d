[package]
name = "filescope"
version = "0.3.0"
edition = "2021"
publish = false

[dependencies]
gtk4 = { version = "0.9", features = ["v4_12"] }
libadwaita = { version = "0.7", features = ["v1_5"] }
async-channel = "2"
libc = "0.2"
