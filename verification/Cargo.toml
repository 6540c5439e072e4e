[package]
name = "fit_resize"
version = "0.1.0"
edition = "2021"
publish = false

[dependencies]
fast_image_resize = "5"
image = "0.25"
