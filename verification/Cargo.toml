[package]
name = "voxelens-core"
version = "0.1.0"
edition = "2021"
publish = false

[dependencies]
flate2 = "=1.1.10"
clap = { version = "=4.6.7", features = ["derive"] }
anyhow = "=1.0.104"
nalgebra = "=0.33.3"
image = { version = "=0.25.10", default-features = false, features = ["png"] }
wasm-bindgen = "=0.2.130"

[dev-dependencies]
fastnbt = "=2.6.3"
serde = "=1.0.229"
