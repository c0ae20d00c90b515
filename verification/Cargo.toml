[package]
name = "shh"
version = "0.1.0"
edition = "2021"
publish = false

[dependencies]
anyhow = "1"
itertools = "0.13"
log = "0.4"
rand = "0.8"
