[package]
name = "roxel"
version = "0.1.0"
edition = "2021"
publish = false

[dependencies]
dot_vox = "=5.2.0"
serde = { version = "=1.0.229", features = ["derive"] }
ron = "=0.12.3"
dirs = "=7.0.0"
base64 = "0.22"
