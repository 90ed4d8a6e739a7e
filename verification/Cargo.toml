[package]
name = "owx_writer"
version = "0.1.0"
edition = "2021"
publish = false

[dependencies]
curie = "*"
clap = "*"

[dev-dependencies]
quick-xml = "*"
