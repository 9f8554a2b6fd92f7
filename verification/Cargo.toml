[package]
name = "lfr_local"
version = "0.1.0"
edition = "2021"
publish = false

[dependencies]
clap = { version = "*", features = ["derive"] }
dialoguer = "*"
edit-xml = "*"
flate2 = "*"
regex = "*"
serde = { version = "*", features = ["derive"] }
serde_json = "*"
sysinfo = "*"
tar = "*"
