[package]
name = "geo_renderer"
version = "0.1.0"
edition = "2021"
publish = false

[dependencies]
anyhow = "1"
bytemuck = { version = "1", features = ["derive"] }
chrono = "0.4"
clap = { version = "3", features = ["derive"] }
csv = "1"
fern = { version = "0.6", features = ["colored"] }
futures-intrusive = "0.5"
image = "0.24"
itertools = "0.10"
log = "0.4"
nalgebra = "0.32"
ndarray = "0.15"
pollster = "0.2"
rayon = "1"
serde = { version = "1", features = ["derive"] }
serde_json = "1"
tiff = "0.9"
toml = "0.5"
wgpu = "0.14"
