[package]
name = "d_separation"
version = "0.1.0"
edition = "2021"

[dependencies]
anyhow = "1"
