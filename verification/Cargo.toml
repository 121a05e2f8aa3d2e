[package]
name = "jiff"
version = "0.1.0"
edition = "2021"
publish = false

[dependencies]
ansi_term = "0.12"
clap = "2"
difference = "2.0"
itertools = "0.10"
term_size = "0.3"
