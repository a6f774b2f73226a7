[package]
name = "fs_squashfs"
version = "0.2.0"
edition = "2021"
publish = false

[dependencies]
flate2 = "1"
lru = "*"
lz4_flex = "*"
lzma-rs = "0.3"
ruzstd = "*"
am-fs-core = "*"
