[package]
name = "rusparse"
version = "0.1.0"
edition = "2021"
publish = false

[dependencies]
ruda-core = { version = "=0.1.13", features = ["tensor-host-data"] }
ruda-kernel = { version = "=0.1.55", features = ["device-tensor"] }
serde = "=1.0.229"
