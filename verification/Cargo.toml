[package]
name = "rl2d"
version = "0.1.0"
edition = "2021"
publish = false

[dependencies]
rand = "*"
fastrand = "*"
serde = { version = "*", features = ["derive"] }
serde_json = "*"
serde_with = "*"
toml = "*"
clap = { version = "*", features = ["derive"] }
indicatif = "*"
nalgebra = "*"
plotters = "*"
rapier3d = "*"
tch = "*"
