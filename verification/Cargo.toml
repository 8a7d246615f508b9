[package]
name = "caliph"
version = "0.1.3"
edition = "2021"
publish = false

[dependencies]
anyhow = "1"
clap = "2"
float-cmp = "*"
splines = "*"
termcolor = "1"
