[package]
name = "ergoscript_cse"
version = "0.1.0"
edition = "2021"
publish = false

[dependencies]
ergotree-ir = "*"
indexmap = "*"
