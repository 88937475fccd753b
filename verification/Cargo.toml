[package]
name = "masswhois"
version = "0.1.0"
edition = "2021"
publish = false

[dependencies]
regex = "*"
mio = { version = "*", features = ["net", "os-poll"] }
