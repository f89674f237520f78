[package]
name = "oid_codec"
version = "0.1.0"
edition = "2021"
publish = false

[dependencies]
regex = "1"
arbitrary = "1"
