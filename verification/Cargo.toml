[package]
name = "layered_nlp"
version = "0.1.0"
edition = "2021"
publish = false

[dependencies]
unicode-segmentation = "1"
unicode-width = "*"

[dev-dependencies]
rust_decimal = "1"
