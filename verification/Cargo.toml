[package]
name = "sglang_mm_core"
version = "0.1.0"
edition = "2021"
publish = false

[dependencies]
image = { version = "0.25", default-features = false, features = ["bmp", "dds", "ff", "gif", "hdr", "ico", "jpeg", "png", "pnm", "qoi", "tga", "tiff", "webp"] }
serde = { version = "1", features = ["derive"] }
serde_json = "1"
pyo3 = "0.27"
numpy = "0.27"
