[package]
name = "microml"
version = "0.1.0"
edition = "2021"
publish = false

[dependencies]
anyhow = "1"
log = "0.4"
plotters = { version = "0.3", default-features = false, features = ["bitmap_backend", "bitmap_encoder", "point_series", "all_elements"] }
rand = "0.8"
simple_logger = "4"
tokio = { version = "1", features = ["macros", "rt-multi-thread"] }
