[package]
name = "histogram_gaussianize"
version = "0.1.0"
edition = "2021"
publish = false

[dependencies]
rayon = "1"
puruspe = "*"
image = "*"
tiff = "*"
clap = { version = "4", features = ["derive"] }
rfd = "*"
anyhow = "1"
