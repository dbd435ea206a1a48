[package]
name = "neofoodclub"
version = "0.1.0"
edition = "2021"
publish = false

[dependencies]
bitflags = "*"
chrono = "*"
chrono-tz = "*"
comfy-table = "*"
itertools = "*"
querystring = "*"
rand = "*"
regex = "*"
serde = { version = "*", features = ["derive"] }
serde_json = "*"
serde_qs = "*"
