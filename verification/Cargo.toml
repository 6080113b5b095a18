[package]
name = "layers"
version = "0.1.0"
edition = "2021"
publish = false

[dependencies]
indextree = "4"
indexmap = "2"
taffy = "0.5"
serde = { version = "1", features = ["derive"] }
serde_json = "1"
bezier_easing = "*"
libm = "0.2"
once_cell = "1"
