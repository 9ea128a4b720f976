[package]
name = "nesting_tree"
version = "0.1.0"
edition = "2021"
publish = false

[dependencies]
geo = "*"
lyon = "*"
usvg = "*"
