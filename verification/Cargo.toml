[package]
name = "kzg"
version = "0.1.0"
edition = "2021"
publish = false

[dependencies]
halo2curves = "*"
rand = "0.8"
