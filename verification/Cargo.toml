[package]
name = "dtw"
version = "0.1.0"
edition = "2021"

[dependencies]
ndarray = "0.15"
