[package]
name = "fst_writer"
version = "0.1.0"
edition = "2021"
publish = false

[dependencies]
fst-reader = "*"
