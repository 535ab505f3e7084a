[package]
name = "ulmake"
version = "0.3.0"
edition = "2021"
publish = false

[dependencies]
clap = "*"
fs2 = "*"
iso9660 = "*"
