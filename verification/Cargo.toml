[package]
name = "axfs_ramfs"
version = "0.1.0"
edition = "2021"
publish = false

[dependencies]
axfs_vfs = "*"
spin = "0.9"
log = "0.4"
