[package]
name = "vtracer"
version = "0.7.0"
edition = "2021"
publish = false

[dependencies]
rayon = "*"
visioncortex = "*"
