[package]
name = "line_index"
version = "0.1.0"
edition = "2021"
publish = false

[dependencies]
memchr = "2"
