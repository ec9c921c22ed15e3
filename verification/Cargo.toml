[package]
name = "parakeet"
version = "0.3.6"
edition = "2021"
publish = false

[dependencies]
ndarray = "=0.17.2"
ort = { version = "=2.0.0-rc.12", default-features = false, features = ["std", "ndarray", "load-dynamic", "api-24"] }
