[package]
name = "net_world"
version = "0.1.0"
edition = "2021"
publish = false

[dependencies]
rayon = "1"
bytemuck = { version = "1", features = ["derive"] }
