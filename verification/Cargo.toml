[package]
name = "path_matcher"
version = "0.1.0"
edition = "2021"
publish = false

[dependencies]
regex = "1"
substring = "1"
