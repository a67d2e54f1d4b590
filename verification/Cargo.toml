[package]
name = "vtree"
version = "0.1.0"
edition = "2021"
publish = false

[dependencies]
ordermap = "0.3"
itertools = "*"
