[package]
name = "wal"
version = "0.1.0"
edition = "2021"
publish = false

[dependencies]
futures = "=0.1.31"
futures-cpupool = "=0.1.8"
libc = "=0.2.191"
zstd = "=0.14.3"
