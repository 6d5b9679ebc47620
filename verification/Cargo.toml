[package]
name = "procrustes"
version = "0.1.1"
edition = "2021"
publish = false

[dependencies]
faer = "0.24"
thiserror = "2"
