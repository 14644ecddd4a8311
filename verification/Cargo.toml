[package]
name = "bitspec"
version = "0.1.0"
edition = "2021"
publish = false

[dependencies]
log = "0.4"
num = "0.2"
rand = "0.6"
serde = { version = "1", features = ["derive"] }
serde_derive = "1"
serde_yaml = "0.8"
text_io = "0.1"
