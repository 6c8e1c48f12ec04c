[package]
name = "brr_conv"
version = "0.1.0"
edition = "2021"
publish = false

[dependencies]
anyhow = "=1.0.104"
clap = "=2.34.0"
cpal = "=0.13.5"
hound = "=3.5.1"
indicatif = "0.17"
nibble_vec = "=0.1.0"
plotters = { version = "=0.3.7", default-features = false, features = ["svg_backend"] }
