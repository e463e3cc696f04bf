[package]
name = "hidden_watermark"
version = "0.1.0"
edition = "2021"
publish = false

[dependencies]
sha2 = "0.10"
crc32fast = "1"
rand = "0.9"
rand_chacha = "0.9"
image = { version = "0.25", default-features = false, features = ["png", "jpeg", "bmp", "tiff", "webp"] }
imageproc = { version = "0.25", default-features = false }
rayon = "1"
clap = { version = "4", features = ["derive"] }
fastrand = "2"
serde = { version = "1", features = ["derive"] }
thiserror = "2"
