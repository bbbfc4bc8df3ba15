[package]
name = "placecare"
version = "1.0.0"
edition = "2021"
publish = false

[dependencies]
bincode = { version = "2", features = ["derive"] }
bio = "*"
clap = { version = "4", features = ["derive"] }
lazy_static = "1"
rayon = "1"
