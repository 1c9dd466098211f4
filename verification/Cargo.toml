[package]
name = "binsubst"
version = "0.1.0"
edition = "2021"
publish = false

[dependencies]
goblin = "*"
memchr = "*"
memmap2 = "*"
rayon = "*"
scroll = "*"
