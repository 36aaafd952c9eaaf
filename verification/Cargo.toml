[package]
name = "custom_was"
version = "0.1.0"
edition = "2021"
publish = false

[dependencies]
fastrand = "2"
rand = "0.8"
pathmap = "0.3"
