[package]
name = "fork-tree"
version = "2.0.0"
edition = "2021"
publish = false

[dependencies]
parity-scale-codec = { version = "1.3", features = ["derive"] }
