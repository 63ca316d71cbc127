[package]
name = "giui"
version = "0.1.0"
edition = "2021"
publish = false

[dependencies]
ab_glyph = "=0.2.32"
keyed_priority_queue = "=0.4.2"
serde = { version = "=1.0.229", features = ["derive"] }
ron = "=0.12.3"
unicode-segmentation = "=1.13.3"
unicode-linebreak = "=0.1.5"
texture-cache = "*"
