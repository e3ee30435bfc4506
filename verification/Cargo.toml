[package]
name = "spl_compiler"
version = "0.1.0"
edition = "2021"
publish = false

[dependencies]
bitvec = "1"
clap = "4"
colored = "2"
dialoguer = "0.11"
anyhow = "1"
regex = "1"
