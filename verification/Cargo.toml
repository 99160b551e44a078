[package]
name = "ferro"
version = "0.1.0"
edition = "2021"
publish = false

[dependencies]
cudarc = { version = "=0.19.10", default-features = false, features = ["std", "cublas", "driver", "nvrtc", "dynamic-loading", "cuda-12060"] }
