[package]
name = "dsp_toy_lib"
version = "0.1.0"
edition = "2021"
publish = false

[dependencies]
nalgebra = "*"
litemap = "*"
easy_complex = "*"
hound = "*"
rand = "*"
