[package]
name = "rcn"
version = "0.1.0"
edition = "2021"
publish = false

[dependencies]
ans = "*"
byteorder = "1"
clap = { version = "4", features = ["derive"] }
crc32fast = "1"
divsufsort = "*"
libsais-rs = "*"
mimalloc = "*"
rayon = "1"
thiserror = "*"
