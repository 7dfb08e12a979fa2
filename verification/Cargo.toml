[package]
name = "region_file"
version = "0.1.0"
edition = "2021"
publish = false

[dependencies]
ahash = "*"
close-err = "*"
concurrent-queue = "*"
dashmap = "*"
flate2 = "*"
fs3 = "*"
glam = "*"
glidesort = "*"
libc = "*"
libdeflater = "*"
memmap2 = "*"
once_cell = "*"
parking_lot = "*"
positioned-io = "*"
