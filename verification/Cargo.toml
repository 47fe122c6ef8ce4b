[package]
name = "voxoil"
version = "0.1.0"
edition = "2021"
publish = false

[dependencies]
arrayvec = "0.7"
bytemuck = { version = "1", features = ["derive"] }
glam = "0.30"
rand = "0.9"
rand_chacha = "0.9"
