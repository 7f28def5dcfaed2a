[package]
name = "onebrc"
version = "0.1.0"
edition = "2021"
publish = false

[dependencies]
dashmap = "*"
fxhash = "*"
memchr = "*"
memmap = "*"
num_cpus = "*"
rayon = "*"
