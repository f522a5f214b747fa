[package]
name = "postcard-forth"
version = "0.1.0"
edition = "2021"
publish = false

[dependencies]
proc-macro2 = "1"
quote = "1"
syn = "2"
rand = "0.8"
rand_chacha = "0.3"
rand_core = "0.6"
