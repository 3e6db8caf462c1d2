[package]
name = "vcv48"
version = "0.1.0"
edition = "2021"
publish = false

[dependencies]
rand = "0.8"
rayon = "1"
lazy_static = "1"
nalgebra = "0.32"
pyo3 = "0.20"
