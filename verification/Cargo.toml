[package]
name = "re_set"
version = "0.1.0"
edition = "2021"
publish = false

[dependencies]
regex = "=1.7.3"
regex-syntax = "0.6"
proc-macro2 = "1"
quote = "1"
syn = "1"
