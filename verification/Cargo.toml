[package]
name = "kmeans_quant"
version = "0.1.0"
edition = "2021"
publish = false

[dependencies]
rand = "0.8"
anyhow = "1"
bytemuck = "1"
palette = "0.6"
pollster = "0.2"
wgpu = "0.12"
