[package]
name = "svf"
version = "0.1.0"
edition = "2021"
publish = false

[dependencies]
vst = "0.3"

[dev-dependencies]
hound = "3"
rand = "0.8"
