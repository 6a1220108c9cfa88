[package]
name = "brainf"
version = "0.1.0"
edition = "2021"
publish = false

[dependencies]
ansi_term = "*"
getopts = "*"
itertools = "*"
tempfile = "*"
text_io = "*"
