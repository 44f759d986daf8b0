[package]
name = "diffusion_factorio"
version = "0.1.0"
edition = "2021"
publish = false

[dependencies]
anyhow = "1"
base64 = "0.22"
burn = { version = "0.21", default-features = false, features = ["ndarray", "autodiff"] }
clap = { version = "4", features = ["derive"] }
flate2 = "1"
rand = "0.8"
rand_chacha = "0.3"
serde = { version = "1", features = ["derive"] }
serde_json = "1"
