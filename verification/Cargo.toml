[package]
name = "ndwt"
version = "0.1.0"
edition = "2021"
publish = false

[dependencies]
num-traits = "0.2"
num-complex = "0.4"
itertools = "*"
rayon = "1"
aligned-vec = "*"
chrono = "0.4"

[dev-dependencies]
