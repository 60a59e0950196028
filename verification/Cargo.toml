[package]
name = "kiki"
version = "0.1.0"
edition = "2021"
publish = false

[dependencies]
rand = "0.8"
sha2 = "0.10"
crc32fast = "1"
image = "0.25"
clap = "4"
color-print = "0.3"
