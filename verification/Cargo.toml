[package]
name = "imageproc"
version = "0.1.0"
edition = "2021"
publish = false

[dependencies]
image = { version = "0.23", default-features = false }
num = "0.3"
rand = "0.4"
conv = "0.3"
