[package]
name = "predict"
version = "0.1.0"
edition = "2021"
publish = false

[dependencies]
rand = "0.8"
num = { version = "*", features = ["serde"] }
ndarray = { version = "*", features = ["serde"] }
ndarray-linalg = "*"
approx = "*"
hound = "*"
itertools-num = "*"
plotters = { version = "*", default-features = false, features = ["bitmap_backend", "bitmap_encoder", "point_series"] }
serde = { version = "1", features = ["derive"] }
