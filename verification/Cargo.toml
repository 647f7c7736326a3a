[package]
name = "bz2zstd"
version = "0.1.0"
edition = "2021"
publish = false

[dependencies]
aho-corasick = "1"
anyhow = "1"
bzip2 = "*"
clap = { version = "4", features = ["derive"] }
crossbeam-channel = "0.5"
memmap2 = "0.9"
rayon = "1"
zstd = "*"
