[package]
name = "ranking"
version = "0.1.0"
edition = "2021"
publish = false

[dependencies]
rand = { version = "0.9", features = ["small_rng"] }
crossbeam-channel = "0.5"
crossbeam-queue = "0.3"
csv = "1"
plotters = { version = "0.3", default-features = false, features = ["bitmap_backend", "bitmap_encoder", "line_series", "point_series"] }
serde = { version = "1", features = ["derive"] }
serde_json = "1"
