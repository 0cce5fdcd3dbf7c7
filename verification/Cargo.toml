[package]
name = "bazelrc"
version = "0.1.0"
edition = "2021"

[dependencies]
prost = "0.12"
