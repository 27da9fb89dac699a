[package]
name = "tremor_runtime"
version = "0.1.0"
edition = "2021"
publish = false

[dependencies]
sled = "=0.34.7"
grok = { version = "=2.4.1", default-features = false, features = ["fancy-regex"] }
actix-router = "=0.5.4"
crossbeam-channel = "=0.5.17"
serde = { version = "=1.0.229", features = ["derive"] }
serde_yaml = "=0.9.34"
halfbrown = "=0.4.0"
