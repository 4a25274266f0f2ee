[package]
name = "proof_diff"
version = "0.1.0"
edition = "2021"
publish = false

[dependencies]
base64 = "0.22"
dirs = "5"
image = { version = "0.25", default-features = false, features = ["bmp", "gif", "jpeg", "png", "tiff", "webp"] }
natord = "1"
open = "5"
psd = "0.3"
rayon = "1"
serde = { version = "1", features = ["derive"] }
