[package]
name = "rlnc"
version = "0.1.0"
edition = "2021"
publish = false

[dependencies]
blstrs = "=0.7.1"
group = "=0.13.0"

[dev-dependencies]
rand = "=0.10.3"
