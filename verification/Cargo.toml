[package]
name = "mrc_volume"
version = "0.1.0"
edition = "2021"
publish = false

[dependencies]
byteorder = "1"
clap = { version = "4", features = ["derive"] }

[dev-dependencies]
half = "2"
