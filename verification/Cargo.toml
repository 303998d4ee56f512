[package]
name = "measurements"
version = "0.1.0"
edition = "2021"
publish = false

[dependencies]
anyhow = "*"
memchr = "*"
memmap2 = "*"
rayon = "*"
