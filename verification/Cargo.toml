[package]
name = "kmeans"
version = "0.1.0"
edition = "2021"
publish = false

[dependencies]
anyhow = "1"
plotters = { version = "0.3", default-features = false, features = ["bitmap_backend", "bitmap_encoder"] }
rand = "0.8"
tokio = { version = "1", features = ["macros", "rt-multi-thread"] }
tokio-stream = "0.1"
