[package]
name = "stella-aho-corasick-core"
version = "0.1.2"
edition = "2021"
publish = false

[dependencies]
daachorse = "=5.1.0"
unicode-case-mapping = "=1.0.0"
napi = "=3.16.1"
napi-derive = "=3.7.0"
