[package]
name = "retina"
version = "0.1.0"
edition = "2021"
publish = false

[dependencies]
anyhow = "*"
image = { version = "*", default-features = false, features = ["jpeg", "png"] }
imageproc = { version = "*", default-features = false }
slint = { version = "*", default-features = false, features = ["compat-1-2", "std"] }
