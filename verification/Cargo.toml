[package]
name = "diskus"
version = "0.9.1"
edition = "2021"
publish = false

[dependencies]
clap = "4"
crossbeam-channel = "0.5"
humansize = "2"
num-format = "0.4"
rayon = "1"
