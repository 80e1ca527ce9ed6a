[package]
name = "completion_ring"
version = "0.1.0"
edition = "2021"
publish = false

[dependencies]
histogram = "*"
io-uring = "0.6"
libc = "*"
memmap2 = "*"
ahash = "*"
