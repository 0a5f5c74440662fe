[package]
name = "palette_codec"
version = "0.1.0"
edition = "2021"
publish = false

[dependencies]
aes = "0.8"
base64-url = "3"
fpe = "0.6"
image = { version = "0.25", default-features = false, features = ["png", "jpeg"] }
num_cpus = "1"
rand = "0.9"
