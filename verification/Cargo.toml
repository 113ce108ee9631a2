[package]
name = "retest"
version = "0.2.1"
edition = "2021"
publish = false

[dependencies]
regex = "1"
term = "*"
getopts = "*"
