[package]
name = "measurements"
version = "0.1.0"
edition = "2021"

[dependencies]
memchr = "*"
memmap2 = "*"
