[package]
name = "rusted-light"
version = "0.1.0"
edition = "2021"
publish = false

[dependencies]
nucleo-matcher = "0.3"
evalexpr = "12"
ignore = "0.4"
dirs = "6"
gtk4 = "0.9"
