[package]
name = "componentflow"
version = "0.1.0"
edition = "2021"
publish = false

[dependencies]
bimap = "0.6"
ndarray = "0.16"
statrs = "*"
serde = { version = "1", features = ["derive"] }
serde_yaml = "0.9"
clap = { version = "4", features = ["derive"] }
rayon = "1"
indicatif = "*"
