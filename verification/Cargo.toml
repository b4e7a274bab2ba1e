[package]
name = "clustering"
version = "0.1.0"
edition = "2021"
publish = false

[dependencies]
ndarray = "0.16"
num = "0.4"
rand = "0.8"
plotters = { version = "0.3", default-features = false, features = ["bitmap_backend", "bitmap_encoder", "line_series", "point_series", "full_palette"] }
