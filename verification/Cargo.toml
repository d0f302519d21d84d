[package]
name = "opt"
version = "0.7.0"
edition = "2021"
publish = false

[dependencies]
log = "0.4"
ndarray = "0.16"
