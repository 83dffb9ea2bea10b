[package]
name = "warp_cache"
version = "0.1.0"
edition = "2021"
publish = false

[dependencies]
hashlink = "*"
libc = "*"
memmap2 = "*"
parking_lot = "*"
pyo3 = "*"
