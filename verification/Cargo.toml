[package]
name = "lenia_ca"
version = "0.1.0"
edition = "2021"
publish = false

[dependencies]
bytemuck = { version = "=1.25.2", features = ["extern_crate_alloc"] }
clap = { version = "=4.6.7", features = ["derive"] }
image = { version = "=0.24.9", default-features = false, features = ["png"] }
ndarray = "=0.15.6"
num-complex = "=0.4.6"
pollster = "=0.3.0"
rand = "=0.8.8"
rustfft = "=6.4.1"
serde = { version = "=1.0.229", features = ["derive"] }
serde_json = "=1.0.154"
wgpu = "=0.17.2"
winit = "=0.28.7"
