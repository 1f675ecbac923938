[package]
name = "wildcard"
version = "0.1.0"
edition = "2021"
publish = false

[dependencies]
protocoll = "*"
heapsize = "0.4"
rand = "0.8"
