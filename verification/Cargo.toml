[package]
name = "wizard"
version = "0.1.4"
edition = "2021"
publish = false

[dependencies]
rayon = "*"
unicode-segmentation = "*"
