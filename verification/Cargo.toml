[package]
name = "vision_rust_core"
version = "0.1.0"
edition = "2021"
publish = false

[dependencies]
base64 = "0.22"
image = { version = "0.25", default-features = false, features = ["png", "jpeg"] }
ndarray = "0.16"
numpy = "0.22"
pyo3 = { version = "0.22", features = ["abi3-py310"] }
rayon = "1"
serde = { version = "1", features = ["derive"] }
serde_json = "1"
walkdir = "2"
zip = { version = "2", default-features = false, features = ["deflate"] }
reqwest = { version = "0.12", default-features = false, features = ["rustls-tls"] }
tokio = { version = "1", features = ["rt-multi-thread", "fs", "io-util"] }
futures = "0.3"
thiserror = "1"
neon = "1"
simd-json = "0.14"
