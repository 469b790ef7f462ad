[package]
name = "sl_interp"
version = "0.1.0"
edition = "2021"
publish = false

[dependencies]
dyn-fmt = "*"
