[package]
name = "anoto_dot_reader"
version = "0.1.0"
edition = "2021"
publish = false

[dependencies]
kornia = "0.1"
image = "0.25"
clap = { version = "4", features = ["derive"] }
serde_json = "1"
plotters = { version = "0.3", default-features = false, features = ["bitmap_backend"] }
