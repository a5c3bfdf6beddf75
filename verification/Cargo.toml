[package]
name = "vector-rs"
version = "0.1.0"
edition = "2021"
publish = false

[dependencies]
rand = "0.8"
rayon = "1"
thiserror = "1"
memmap2 = "0.9"
bytemuck = "1"
parking_lot = "0.12"
clap = { version = "4", features = ["derive"] }
tracing = "0.1"
