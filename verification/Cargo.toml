[package]
name = "lb"
version = "0.1.0"
edition = "2021"
publish = false

[dependencies]
rand = "0.9"
hdrhistogram = { version = "7", default-features = false }
nexosim = "*"
clap = { version = "4", features = ["derive"] }
serde = { version = "1", features = ["derive"] }
serde_json = "1"
