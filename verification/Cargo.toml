[package]
name = "batcher"
version = "0.1.0"
edition = "2021"
publish = false

[dependencies]
ab_glyph = "0.2"
calamine = "*"
image = { version = "0.25", default-features = false, features = ["jpeg", "png"] }
imageproc = { version = "0.25", default-features = false }
rayon = "1"
resvg = "0.45"
serde = { version = "1", features = ["derive"] }
tiny-skia = "0.11"
turbojpeg = "1"
usvg = "0.45"
