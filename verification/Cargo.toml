[package]
name = "ordered_stream"
version = "0.1.0"
edition = "2021"
publish = false

[dependencies]
crossbeam-channel = "0.5"
intmap = "0.7"
