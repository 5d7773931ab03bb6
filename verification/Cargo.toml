[package]
name = "fiducial"
version = "0.1.0"
edition = "2021"
publish = false

[dependencies]
image = { version = "=0.23.14", default-features = false }
imageproc = { version = "=0.22.0", default-features = false }
nalgebra = "=0.21.1"
cv-core = "=0.15.0"
cv-pinhole = "=0.6.0"
arrsac = "=0.11.0"
lambda-twist = "=0.7.0"
rand = "0.9"
euclid = "=0.22.14"
itertools = "=0.10.5"
lazy_static = "=1.5.1"
rusttype = "=0.9.3"
opencv = "=0.101.1"
