[package]
name = "oxidd_viz"
version = "0.1.0"
edition = "2021"
publish = false

[dependencies]
seeded-random = "*"
js-sys = "*"
itertools = "*"

[dev-dependencies]
num-rational = "*"
