[package]
name = "minify_attr"
version = "0.1.0"
edition = "2021"
publish = false

[dependencies]
aho-corasick = "0.7"
lazy_static = "1.4"
