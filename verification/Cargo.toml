[package]
name = "fractal_dim"
version = "0.1.0"
edition = "2021"
publish = false

[dependencies]
anyhow = "*"
clap = { version = "*", features = ["derive"] }
csv = "*"
fractal-analysis = "*"
lindel = "*"
ndarray = "*"
npyz = { version = "*", features = ["npz"] }
rayon = "*"
serde = { version = "*", features = ["derive"] }
