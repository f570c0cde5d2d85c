[package]
name = "vec_belt"
version = "0.1.0"
edition = "2021"

[dependencies]
crossbeam-utils = "0.8"
likely_stable = "0.1"
