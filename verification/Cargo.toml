[package]
name = "voluta"
version = "0.1.0"
edition = "2021"
publish = false

[dependencies]
aho-corasick = "1"
memmap2 = "0.9"
rayon = "1"
