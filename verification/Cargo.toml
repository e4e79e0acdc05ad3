[package]
name = "shrubbery"
version = "0.1.0"
edition = "2021"

[dependencies]
ahash = "0.8"
graphviz-rust = "*"
log = "0.4"
regex = "1"
thiserror = "1"
