[package]
name = "fstool"
version = "0.1.0"
edition = "2021"
publish = false

[dependencies]
caseless = "=0.2.2"
compcol = { version = "=0.7.8", default-features = false, features = ["alloc", "std", "deflate", "lzx", "amiga_lzx", "quantum", "rar5"] }
crc32c = "=0.6.9"
unicode-normalization = "=0.1.26"
