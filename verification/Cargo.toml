[package]
name = "engram-parser"
version = "0.2.0"
edition = "2021"
publish = false

[dependencies]
memmap2 = "0.9"
