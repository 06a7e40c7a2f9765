[package]
name = "pcgbg"
version = "0.1.0"
edition = "2021"
publish = false

[dependencies]
ndarray = "0.15"
rand = { version = "0.8", features = ["small_rng"] }
noise = { version = "0.7", default-features = false }
num-complex = "0.4"
image = { version = "0.24", default-features = false, features = ["png"] }
structopt = "0.3"
