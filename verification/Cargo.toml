[package]
name = "statics"
version = "0.1.0"
edition = "2021"
publish = false

[dependencies]
anyhow = "=1.0.104"
atoi = "=3.1.1"
blake3 = "=1.8.7"
bstr = "=1.13.1"
bytemuck = { version = "=1.25.2", features = ["derive"] }
glam = { version = "=0.34.2", features = ["bytemuck"] }
half = "=2.7.1"
hashbrown = "=0.17.1"
image = { version = "=0.25.10", default-features = false, features = ["bmp", "tga"] }
image_dds = "=0.7.2"
meshopt = "=0.7.0"
obvhs = "=0.4.0"
rayon = "=1.12.0"
rkyv = "=0.8.18"
serde = { version = "=1.0.229", features = ["derive"] }
tex-packer-core = "=0.2.0"
toml = "=1.1.8"
tracing = { version = "=0.1.44", default-features = false, features = ["std"] }
uncased = "=0.9.10"
